use vstd::prelude::*;

use crate::error::KanError;
use crate::matrix::Matrix;

verus! {

/// An ordered sequence of scalars. The element type is left open: the
/// container only moves values, and what is done to them is handed in.
#[derive(Debug, Clone, PartialEq)]
pub struct Vector<T> {
    pub elements: Vec<T>,
}

impl<T> View for Vector<T> {
    type V = Seq<T>;

    open spec fn view(&self) -> Seq<T> {
        self.elements@
    }
}

/// Copies the elements of `v` into a fresh `Vec`.
pub(crate) fn copy_vec<T: Copy>(v: &Vec<T>) -> (r: Vec<T>)
    ensures
        r@ == v@,
{
    let mut r: Vec<T> = Vec::with_capacity(v.len());
    let mut i: usize = 0;
    while i < v.len()
        invariant
            i <= v.len(),
            r@ == v@.subrange(0, i as int),
        decreases v.len() - i,
    {
        r.push(v[i]);
        i = i + 1;
    }
    assert(r@ =~= v@);
    r
}

/// `acc` records a left fold of `step` over the pairs of `a` and `b`
/// starting from `init`: `acc[i + 1]` is a result of
/// `step(acc[i], a[i], b[i])`.
pub open spec fn is_zip_fold<T, U, F: Fn(U, T, T) -> U>(
    acc: Seq<U>,
    a: Seq<T>,
    b: Seq<T>,
    init: U,
    step: F,
) -> bool {
    &&& acc.len() == a.len() + 1
    &&& acc[0] == init
    &&& forall|i: int|
        0 <= i < a.len() ==> #[trigger] step.ensures((acc[i], a[i], b[i]), acc[i + 1])
}

/// `v` is what a left fold of `step` over the pairs of `a` and `b`,
/// starting from `init`, can return.
pub open spec fn folds_to<T, U, F: Fn(U, T, T) -> U>(
    a: Seq<T>,
    b: Seq<T>,
    init: U,
    step: F,
    v: U,
) -> bool {
    exists|acc: Seq<U>| #[trigger] is_zip_fold(acc, a, b, init, step) && v == acc.last()
}

/// `acc` records a left fold of `step` over `a` starting from `init`:
/// `acc[i + 1]` is a result of `step(acc[i], a[i])`.
pub open spec fn is_fold<T, U, F: Fn(U, T) -> U>(acc: Seq<U>, a: Seq<T>, init: U, step: F) -> bool {
    &&& acc.len() == a.len() + 1
    &&& acc[0] == init
    &&& forall|i: int| 0 <= i < a.len() ==> #[trigger] step.ensures((acc[i], a[i]), acc[i + 1])
}

/// `v` is what a left fold of `step` over `a`, starting from `init`, can
/// return.
pub open spec fn fold_to<T, U, F: Fn(U, T) -> U>(a: Seq<T>, init: U, step: F, v: U) -> bool {
    exists|acc: Seq<U>| #[trigger] is_fold(acc, a, init, step) && v == acc.last()
}

impl<T: Copy> Vector<T> {
    /// A vector that holds `elements` in their order.
    pub fn new(elements: Vec<T>) -> (r: Vector<T>)
        ensures
            r@ == elements@,
    {
        Vector { elements }
    }

    /// A vector of `size` copies of `value`.
    pub fn filled(size: usize, value: T) -> (r: Vector<T>)
        ensures
            r@ == Seq::new(size as nat, |_i: int| value),
    {
        let mut elements: Vec<T> = Vec::with_capacity(size);
        let mut i: usize = 0;
        while i < size
            invariant
                i <= size,
                elements@ == Seq::new(i as nat, |_k: int| value),
            decreases size - i,
        {
            elements.push(value);
            i = i + 1;
            assert(elements@ =~= Seq::new(i as nat, |_k: int| value));
        }
        Vector { elements }
    }

    /// The number of elements.
    pub fn len(&self) -> (r: usize)
        ensures
            r == self@.len(),
    {
        self.elements.len()
    }

    /// The element at `index`, or `None` past the end.
    pub fn get(&self, index: usize) -> (r: Option<T>)
        ensures
            index < self@.len() ==> r == Some(self@[index as int]),
            index >= self@.len() ==> r is None,
    {
        if index < self.elements.len() {
            Some(self.elements[index])
        } else {
            None
        }
    }

    /// Overwrites the element at `index`; past the end nothing changes.
    pub fn set(&mut self, index: usize, value: T) -> (r: Result<(), KanError>)
        ensures
            index < old(self)@.len() ==> r is Ok && final(self)@ == old(self)@.update(
                index as int,
                value,
            ),
            index >= old(self)@.len() ==> r == Err::<(), KanError>(KanError::IndexOutOfRange)
                && final(self)@ == old(self)@,
    {
        if index < self.elements.len() {
            self.elements.set(index, value);
            Ok(())
        } else {
            Err(KanError::IndexOutOfRange)
        }
    }

    /// Appends `value` at the end.
    pub fn push(&mut self, value: T)
        ensures
            final(self)@ == old(self)@.push(value),
    {
        self.elements.push(value);
    }

    /// A matrix whose single row is this vector.
    pub fn to_matrix(&self) -> (r: Matrix<T>)
        ensures
            r@ == seq![self@],
    {
        let row = Vector { elements: copy_vec(&self.elements) };
        let mut rows: Vec<Vector<T>> = Vec::new();
        rows.push(row);
        let r = Matrix { rows };
        assert(r@ =~= seq![self@]);
        r
    }

    /// Applies `f` to each element.
    pub fn map<U, F: Fn(T) -> U>(&self, f: &F) -> (r: Vector<U>)
        requires
            forall|i: int| 0 <= i < self@.len() ==> f.requires((self@[i],)),
        ensures
            r@.len() == self@.len(),
            forall|i: int| 0 <= i < self@.len() ==> f.ensures((self@[i],), #[trigger] r@[i]),
    {
        let mut out: Vec<U> = Vec::with_capacity(self.elements.len());
        let mut i: usize = 0;
        while i < self.elements.len()
            invariant
                i <= self@.len(),
                out@.len() == i,
                forall|k: int| 0 <= k < self@.len() ==> f.requires((self@[k],)),
                forall|k: int| 0 <= k < i ==> f.ensures((self@[k],), #[trigger] out@[k]),
            decreases self@.len() - i,
        {
            let y = f(self.elements[i]);
            out.push(y);
            i = i + 1;
        }
        Vector { elements: out }
    }

    /// Combines the two vectors element by element with `f`; vectors of
    /// different lengths are refused.
    pub fn zip_with<U, F: Fn(T, T) -> U>(&self, other: &Vector<T>, f: &F) -> (r: Result<
        Vector<U>,
        KanError,
    >)
        requires
            forall|i: int| 0 <= i < self@.len() && i < other@.len() ==> f.requires((self@[i], other@[i])),
        ensures
            self@.len() != other@.len() ==> r == Err::<Vector<U>, KanError>(KanError::ShapeMismatch),
            self@.len() == other@.len() ==> r is Ok,
            r matches Ok(v) ==> (v@.len() == self@.len() && forall|i: int|
                0 <= i < self@.len() ==> f.ensures((self@[i], other@[i]), #[trigger] v@[i])),
    {
        if self.elements.len() != other.elements.len() {
            return Err(KanError::ShapeMismatch);
        }
        let mut out: Vec<U> = Vec::with_capacity(self.elements.len());
        let mut i: usize = 0;
        while i < self.elements.len()
            invariant
                i <= self@.len(),
                self@.len() == other@.len(),
                out@.len() == i,
                forall|k: int| 0 <= k < self@.len() && k < other@.len() ==> f.requires((self@[k], other@[k])),
                forall|k: int| 0 <= k < i ==> f.ensures((self@[k], other@[k]), #[trigger] out@[k]),
            decreases self@.len() - i,
        {
            let y = f(self.elements[i], other.elements[i]);
            out.push(y);
            i = i + 1;
        }
        Ok(Vector { elements: out })
    }
    /// Folds `step` over the pairs of equal positions from left to right,
    /// starting from `init` (`step(acc, self[i], other[i])`); vectors of
    /// different lengths are refused.
    pub fn zip_fold<U, F: Fn(U, T, T) -> U>(&self, other: &Vector<T>, init: U, step: &F) -> (r:
        Result<U, KanError>)
        requires
            forall|u: U, x: T, y: T| step.requires((u, x, y)),
        ensures
            self@.len() != other@.len() ==> r == Err::<U, KanError>(KanError::ShapeMismatch),
            self@.len() == other@.len() ==> (r matches Ok(v) && folds_to(
                self@,
                other@,
                init,
                *step,
                v,
            )),
    {
        if self.elements.len() != other.elements.len() {
            return Err(KanError::ShapeMismatch);
        }
        let ghost mut acc: Seq<U> = seq![init];
        let mut value = init;
        let mut i: usize = 0;
        while i < self.elements.len()
            invariant
                i <= self@.len(),
                self@.len() == other@.len(),
                forall|u: U, x: T, y: T| step.requires((u, x, y)),
                acc.len() == i + 1,
                acc[0] == init,
                acc.last() == value,
                forall|k: int|
                    0 <= k < i ==> #[trigger] step.ensures(
                        (acc[k], self@[k], other@[k]),
                        acc[k + 1],
                    ),
            decreases self@.len() - i,
        {
            let next = step(value, self.elements[i], other.elements[i]);
            proof {
                let before = acc;
                acc = acc.push(next);
                assert forall|k: int| 0 <= k < i + 1 implies #[trigger] step.ensures(
                    (acc[k], self@[k], other@[k]),
                    acc[k + 1],
                ) by {
                    if k < i {
                        assert(acc[k] == before[k] && acc[k + 1] == before[k + 1]);
                    }
                }
            }
            value = next;
            i = i + 1;
        }
        assert(is_zip_fold(acc, self@, other@, init, *step));
        Ok(value)
    }
    /// Folds `step` over the elements from left to right, starting from
    /// `init` (`step(acc, self[i])`).
    pub fn fold<U, F: Fn(U, T) -> U>(&self, init: U, step: &F) -> (r: U)
        requires
            forall|u: U, x: T| step.requires((u, x)),
        ensures
            fold_to(self@, init, *step, r),
    {
        let ghost mut acc: Seq<U> = seq![init];
        let mut value = init;
        let mut i: usize = 0;
        while i < self.elements.len()
            invariant
                i <= self@.len(),
                forall|u: U, x: T| step.requires((u, x)),
                acc.len() == i + 1,
                acc[0] == init,
                acc.last() == value,
                forall|k: int| 0 <= k < i ==> #[trigger] step.ensures((acc[k], self@[k]), acc[k + 1]),
            decreases self@.len() - i,
        {
            let next = step(value, self.elements[i]);
            proof {
                let before = acc;
                acc = acc.push(next);
                assert forall|k: int| 0 <= k < i + 1 implies #[trigger] step.ensures(
                    (acc[k], self@[k]),
                    acc[k + 1],
                ) by {
                    if k < i {
                        assert(acc[k] == before[k] && acc[k + 1] == before[k + 1]);
                    }
                }
            }
            value = next;
            i = i + 1;
        }
        assert(is_fold(acc, self@, init, *step));
        value
    }
}

} // verus!
