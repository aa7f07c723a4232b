//! A vector indexed by nonzero signed literals.
use vstd::prelude::*;

verus! {

/// A flat buffer of `2 * length + 1` cells addressed by the literals
/// `-length..=length` without `0`: literal `l` lives at offset `length - l`.
pub struct NVec<T> {
    length: usize,
    data: Vec<T>,
}

impl<T> NVec<T> {
    /// The cells of the buffer, in storage order.
    pub closed spec fn view(&self) -> Seq<T> {
        self.data@
    }

    /// The largest index the vector accepts.
    pub closed spec fn half(&self) -> nat {
        self.length as nat
    }

    pub open spec fn wf(&self) -> bool {
        &&& self@.len() == 2 * self.half() + 1
        &&& self.half() < isize::MAX
    }

    /// The cell addressed by the literal `l`.
    pub open spec fn spec_index(&self, l: int) -> T {
        self@[self.half() - l]
    }

    /// The literal `l` addresses a cell.
    pub open spec fn in_range(&self, l: int) -> bool {
        l != 0 && -(self.half() as int) <= l <= self.half()
    }

    /// Allocates the cells for the literals `-length..=length`, each holding
    /// `T::default()`.
    pub fn new(length: usize) -> (r: Self)
        where T: Default
        requires
            length < isize::MAX as usize,
        ensures
            r.wf(),
            r.half() == length,
            forall|i: int| 0 <= i < r@.len() ==> call_ensures(T::default, (), #[trigger] r@[i]),
    {
        let mut data: Vec<T> = Vec::new();
        let mut i: usize = 0;
        while i < 2 * length + 1
            invariant
                i <= 2 * length + 1,
                length < isize::MAX as usize,
                data@.len() == i,
                forall|j: int| 0 <= j < data@.len() ==> call_ensures(T::default, (), #[trigger] data@[j]),
            decreases 2 * length + 1 - i,
        {
            let v = T::default();
            data.push(v);
            i += 1;
        }
        NVec { length, data }
    }

    /// The largest index the vector accepts.
    pub fn len(&self) -> (r: usize)
        ensures
            r == self.half(),
    {
        self.length
    }

    fn offset(&self, l: isize) -> (r: usize)
        requires
            self.wf(),
            self.in_range(l as int),
        ensures
            r == self.half() - l,
            r < self@.len(),
    {
        if l > 0 {
            self.length - (l as usize)
        } else {
            self.length + ((-l) as usize)
        }
    }

    /// The cell addressed by `l`.
    pub fn index(&self, l: isize) -> (r: &T)
        requires
            self.wf(),
            self.in_range(l as int),
        ensures
            *r == self[l as int],
    {
        let k = self.offset(l);
        &self.data[k]
    }

    /// Mutable access to the cell addressed by `l`.
    pub fn index_mut(&mut self, l: isize) -> (r: &mut T)
        requires
            old(self).wf(),
            old(self).in_range(l as int),
        ensures
            *r == old(self)[l as int],
            final(self).half() == old(self).half(),
            final(self)@ == old(self)@.update(old(self).half() - l, *final(r)),
    {
        let k = self.offset(l);
        &mut self.data[k]
    }
}

} // verus!
