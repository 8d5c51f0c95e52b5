use vstd::prelude::*;

verus! {

/// The number of knots of a spline with `n` control points of degree
/// `degree`: `n + degree + 1`, or `None` when that does not fit in `usize`.
pub fn knot_count(n: usize, degree: usize) -> (r: Option<usize>)
    ensures
        n + degree + 1 <= usize::MAX ==> r == Some((n + degree + 1) as usize),
        n + degree + 1 > usize::MAX ==> r is None,
{
    if n > usize::MAX - 1 || degree > usize::MAX - 1 - n {
        None
    } else {
        Some(n + degree + 1)
    }
}

/// Whether the basis function of index `i` and degree `degree` can be
/// evaluated over `knot_len` knots: its Cox-de Boor recursion reads the knots
/// `i` through `i + degree + 1`.
pub fn basis_in_range(i: usize, degree: usize, knot_len: usize) -> (r: bool)
    ensures
        r == (i + degree + 1 < knot_len),
{
    i < knot_len && degree < knot_len - i && 1 < knot_len - i - degree
}

/// The rows of `tab` are the first rows of the Cox-de Boor triangle of the
/// basis functions of indices `first .. first + width` and degree `degree`,
/// as `base` and `combine` define them: row `d` holds the degree-`d` values
/// of indices `first .. first + width + degree - d`; row 0 comes from
/// `base(index)`, and entry `i` of row `d > 0` from
/// `combine(index, d, below, below_next)`, where `below` and `below_next`
/// are entries `i` and `i + 1` of row `d - 1`.
#[verifier::opaque]
pub open spec fn is_triangle_prefix<T, B: Fn(usize) -> T, C: Fn(usize, usize, T, T) -> T>(
    tab: Seq<Seq<T>>,
    first: nat,
    width: nat,
    degree: nat,
    base: B,
    combine: C,
) -> bool {
    &&& 1 <= tab.len() <= degree + 1
    &&& forall|d: int| 0 <= d < tab.len() ==> #[trigger] tab[d].len() == width + degree - d
    &&& forall|i: int|
        0 <= i < width + degree ==> base.ensures(((first + i) as usize,), #[trigger] tab[0][i])
    &&& forall|d: int, i: int|
        1 <= d < tab.len() && 0 <= i < width + degree - d ==> combine.ensures(
            ((first + i) as usize, d as usize, tab[d - 1][i], tab[d - 1][i + 1]),
            #[trigger] tab[d][i],
        )
}

/// `tab` is the whole Cox-de Boor triangle, up to degree `degree`.
pub open spec fn is_basis_triangle<T, B: Fn(usize) -> T, C: Fn(usize, usize, T, T) -> T>(
    tab: Seq<Seq<T>>,
    first: nat,
    width: nat,
    degree: nat,
    base: B,
    combine: C,
) -> bool {
    &&& tab.len() == degree + 1
    &&& is_triangle_prefix(tab, first, width, degree, base, combine)
}

proof fn lemma_triangle_base<T, B: Fn(usize) -> T, C: Fn(usize, usize, T, T) -> T>(
    row: Seq<T>,
    first: nat,
    width: nat,
    degree: nat,
    base: B,
    combine: C,
)
    requires
        row.len() == width + degree,
        forall|i: int| 0 <= i < row.len() ==> base.ensures(((first + i) as usize,), #[trigger] row[i]),
    ensures
        is_triangle_prefix(seq![row], first, width, degree, base, combine),
{
    reveal(is_triangle_prefix);
    assert(seq![row][0] == row);
}

proof fn lemma_triangle_push<T, B: Fn(usize) -> T, C: Fn(usize, usize, T, T) -> T>(
    tab: Seq<Seq<T>>,
    next: Seq<T>,
    first: nat,
    width: nat,
    degree: nat,
    base: B,
    combine: C,
)
    requires
        is_triangle_prefix(tab, first, width, degree, base, combine),
        tab.len() <= degree,
        next.len() == width + degree - tab.len(),
        forall|i: int|
            0 <= i < next.len() ==> combine.ensures(
                ((first + i) as usize, tab.len() as usize, tab.last()[i], tab.last()[i + 1]),
                #[trigger] next[i],
            ),
    ensures
        is_triangle_prefix(tab.push(next), first, width, degree, base, combine),
{
    reveal(is_triangle_prefix);
    let t2 = tab.push(next);
    let d0 = tab.len() as int;
    assert forall|d: int, i: int|
        1 <= d < t2.len() && 0 <= i < width + degree - d implies combine.ensures(
        ((first + i) as usize, d as usize, t2[d - 1][i], t2[d - 1][i + 1]),
        #[trigger] t2[d][i],
    ) by {
        if d < d0 {
            assert(t2[d] == tab[d]);
            assert(t2[d - 1] == tab[d - 1]);
        } else {
            assert(t2[d] == next);
            assert(t2[d - 1] == tab.last());
        }
    }
    assert forall|i: int| 0 <= i < width + degree implies base.ensures(
        ((first + i) as usize,),
        #[trigger] t2[0][i],
    ) by {
        assert(t2[0] == tab[0]);
    }
    assert forall|d: int| 0 <= d < t2.len() implies #[trigger] t2[d].len() == width + degree - d by {
        if d < d0 {
            assert(t2[d] == tab[d]);
        }
    }
}

/// In a triangle of degree 0 the row is the base case itself: value `i` is
/// a result of `base(first + i)`, the knot-interval indicator when `base`
/// is one.
pub proof fn lemma_degree_zero_row_is_base<T, B: Fn(usize) -> T, C: Fn(usize, usize, T, T) -> T>(
    tab: Seq<Seq<T>>,
    first: nat,
    width: nat,
    base: B,
    combine: C,
)
    requires
        is_basis_triangle(tab, first, width, 0, base, combine),
    ensures
        tab[0].len() == width,
        forall|i: int| 0 <= i < width ==> base.ensures(((first + i) as usize,), #[trigger] tab[0][i]),
{
    reveal(is_triangle_prefix);
}

/// The basis values of degree `degree` for the indices
/// `first .. first + width`, computed bottom-up over the Cox-de Boor
/// triangle so that each value of each degree is computed once. `base(i)`
/// gives the degree-0 value of index `i`; `combine(i, d, lo, hi)` gives the
/// degree-`d` value of index `i` from the degree-`(d - 1)` values `lo` of
/// index `i` and `hi` of index `i + 1`.
pub fn basis_row<T: Copy, B: Fn(usize) -> T, C: Fn(usize, usize, T, T) -> T>(
    first: usize,
    width: usize,
    degree: usize,
    base: &B,
    combine: &C,
) -> (r: Vec<T>)
    requires
        first + width + degree <= usize::MAX,
        forall|i: usize| base.requires((i,)),
        forall|i: usize, d: usize, lo: T, hi: T| combine.requires((i, d, lo, hi)),
    ensures
        exists|tab: Seq<Seq<T>>|
            #[trigger] is_basis_triangle(tab, first as nat, width as nat, degree as nat, *base, *combine)
                && r@ == tab[degree as int],
{
    let count: usize = width + degree;
    let mut row: Vec<T> = Vec::with_capacity(count);
    let mut i: usize = 0;
    while i < count
        invariant
            i <= count,
            count == width + degree,
            first + width + degree <= usize::MAX,
            forall|k: usize| base.requires((k,)),
            row@.len() == i,
            forall|k: int| 0 <= k < i ==> base.ensures(((first + k) as usize,), #[trigger] row@[k]),
        decreases count - i,
    {
        row.push(base(first + i));
        i = i + 1;
    }
    let ghost mut tab: Seq<Seq<T>> = seq![row@];
    proof {
        lemma_triangle_base(row@, first as nat, width as nat, degree as nat, *base, *combine);
    }
    let mut done: usize = 0;
    while done < degree
        invariant
            done <= degree,
            count == width + degree,
            first + width + degree <= usize::MAX,
            forall|k: usize, e: usize, lo: T, hi: T| combine.requires((k, e, lo, hi)),
            tab.len() == done + 1,
            row@ == tab.last(),
            row@.len() == width + degree - done,
            is_triangle_prefix(tab, first as nat, width as nat, degree as nat, *base, *combine),
        decreases degree - done,
    {
        let d: usize = done + 1;
        let len: usize = count - d;
        let mut next: Vec<T> = Vec::with_capacity(len);
        let mut i: usize = 0;
        while i < len
            invariant
                i <= len,
                len == width + degree - d,
                1 <= d <= degree,
                count == width + degree,
                first + width + degree <= usize::MAX,
                forall|k: usize, e: usize, lo: T, hi: T| combine.requires((k, e, lo, hi)),
                row@.len() == len + 1,
                next@.len() == i,
                forall|k: int|
                    0 <= k < i ==> combine.ensures(
                        ((first + k) as usize, d, row@[k], row@[k + 1]),
                        #[trigger] next@[k],
                    ),
            decreases len - i,
        {
            next.push(combine(first + i, d, row[i], row[i + 1]));
            i = i + 1;
        }
        proof {
            lemma_triangle_push(tab, next@, first as nat, width as nat, degree as nat, *base, *combine);
            tab = tab.push(next@);
        }
        row = next;
        done = d;
    }
    assert(is_basis_triangle(tab, first as nat, width as nat, degree as nat, *base, *combine));
    row
}

} // verus!
