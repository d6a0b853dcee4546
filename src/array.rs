use vstd::prelude::*;

use crate::error::NetError;
use crate::linalg::{LinAlg, LinAlgGen};
use crate::mat::filled;
use crate::num::Num;

verus! {

/// A position in an [`Array`]: counted from the first entry, or from the last
/// (`Back(0)` is the last entry).
#[derive(Clone, Copy, Debug, PartialEq, Eq, Structural)]
pub enum IndexType {
    Front(usize),
    Back(usize),
}

/// A fixed-length sequence of layer buffers.
pub struct Array<M> {
    buf: Vec<M>,
}

impl<M> View for Array<M> {
    type V = Seq<M>;

    closed spec fn view(&self) -> Seq<M> {
        self.buf@
    }
}

impl<M> Array<M> {
    /// The offset from the start that `index` names.
    pub open spec fn position(&self, index: IndexType) -> int {
        match index {
            IndexType::Front(i) => i as int,
            IndexType::Back(i) => self@.len() - 1 - i,
        }
    }

    /// Whether `index` names an entry.
    pub open spec fn valid(&self, index: IndexType) -> bool {
        0 <= self.position(index) < self@.len()
    }

    /// The array holding the entries of `buf`, in order.
    pub fn from_buf(buf: Vec<M>) -> (r: Self)
        ensures
            r@ == buf@,
    {
        Array { buf }
    }

    /// An array of no entries.
    pub fn new() -> (r: Self)
        ensures
            r@ == Seq::<M>::empty(),
    {
        Array { buf: Vec::new() }
    }

    /// Number of entries.
    pub fn len(&self) -> (r: usize)
        ensures
            r == self@.len(),
    {
        self.buf.len()
    }

    fn to_index(&self, index: IndexType) -> (r: usize)
        requires
            self.valid(index),
        ensures
            r == self.position(index),
    {
        match index {
            IndexType::Back(i) => self.buf.len() - (i + 1),
            IndexType::Front(i) => i,
        }
    }

    /// The entry that `index` names.
    pub fn get(&self, index: IndexType) -> (r: &M)
        requires
            self.valid(index),
        ensures
            *r == self@[self.position(index)],
    {
        let k = self.to_index(index);
        &self.buf[k]
    }

    /// Mutable access to the entry that `index` names.
    pub fn get_mut(&mut self, index: IndexType) -> (r: &mut M)
        requires
            old(self).valid(index),
        ensures
            *r == old(self)@[old(self).position(index)],
            final(self)@ == old(self)@.update(old(self).position(index), *final(r)),
    {
        let k = self.to_index(index);
        &mut self.buf[k]
    }

    /// Mutable access to two different entries at once; asking twice for one
    /// entry is refused with `Aliased`.
    pub fn indices_mut(&mut self, fst: IndexType, sec: IndexType) -> (r: Result<(&mut M, &mut M), NetError>)
        requires
            old(self).valid(fst),
            old(self).valid(sec),
        ensures
            r is Err <==> old(self).position(fst) == old(self).position(sec),
            r is Err ==> (r matches Err(NetError::Aliased)) && final(self)@ == old(self)@,
            r matches Ok(p) ==> {
                &&& *p.0 == old(self)@[old(self).position(fst)]
                &&& *p.1 == old(self)@[old(self).position(sec)]
                &&& final(self)@ == old(self)@.update(old(self).position(fst), *final(p.0)).update(
                    old(self).position(sec),
                    *final(p.1),
                )
            },
    {
        let fst = self.to_index(fst);
        let sec = self.to_index(sec);
        if fst == sec {
            return Err(NetError::Aliased);
        }
        let min = if fst < sec { fst } else { sec };
        let max = if fst < sec { sec } else { fst };
        let (head, rest) = self.buf.as_mut_slice().split_at_mut(min + 1);
        let a = &mut head[min];
        let b = &mut rest[max - (min + 1)];
        if fst == min {
            Ok((a, b))
        } else {
            Ok((b, a))
        }
    }
}

impl<M> Array<M> {
    /// Every entry is a well-formed grid.
    pub open spec fn all_wf<N: Num>(&self) -> bool where M: LinAlgGen<N> {
        forall|i: int| 0 <= i < self@.len() ==> (#[trigger] self@[i]).wf()
    }

    /// Sets every entry of every grid to zero, keeping each grid's shape.
    pub fn zero<N: Num>(&mut self) where M: LinAlg<N>
        requires
            old(self).all_wf(),
        ensures
            final(self)@.len() == old(self)@.len(),
            final(self).all_wf(),
            forall|i: int|
                0 <= i < old(self)@.len() ==> (#[trigger] final(self)@[i]).mat() == filled(
                    old(self)@[i].mat().rows,
                    old(self)@[i].mat().cols,
                    N::zero_spec(),
                ),
    {
        let n = self.buf.len();
        let mut i: usize = 0;
        while i < n
            invariant
                i <= n,
                n == self@.len(),
                self@.len() == old(self)@.len(),
                self.all_wf(),
                forall|k: int|
                    0 <= k < i ==> (#[trigger] self@[k]).mat() == filled(
                        old(self)@[k].mat().rows,
                        old(self)@[k].mat().cols,
                        N::zero_spec(),
                    ),
                forall|k: int| i <= k < n ==> #[trigger] self@[k] == old(self)@[k],
            decreases n - i,
        {
            self.buf[i].fill_zero();
            i = i + 1;
        }
    }
}

} // verus!
