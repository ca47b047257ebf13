use vstd::prelude::*;

verus! {

/// Values that have an empty form.
pub trait Empty: Sized {
    fn new_empty() -> Self;

    fn is_empty(&self) -> bool;
}

/// Values that record the index under which a pool holds them.
pub trait CallBack: Sized {
    /// This value with its recorded index set to `idx`.
    spec fn with_index(&self, idx: usize) -> Self;

    fn set_index(&mut self, idx: usize)
        ensures
            *final(self) == old(self).with_index(idx),
    ;
}

/// An arena that hands out stable indices, reusing freed ones.
pub struct Pool<T> {
    mem: Vec<T>,
    recycle: Vec<usize>,
}

impl<T: Empty + CallBack> Pool<T> {
    /// The slots of the pool.
    pub closed spec fn slots(&self) -> Seq<T> {
        self.mem@
    }

    /// The freed indices, the last one reused first.
    pub closed spec fn freed(&self) -> Seq<usize> {
        self.recycle@
    }

    /// Every freed index names a slot.
    pub open spec fn wf(&self) -> bool {
        forall|i: int| 0 <= i < self.freed().len() ==> #[trigger] self.freed()[i] < self.slots().len()
    }

    pub fn new() -> (r: Self)
        ensures
            r.slots().len() == 0,
            r.freed().len() == 0,
            r.wf(),
    {
        Pool { mem: Vec::new(), recycle: Vec::new() }
    }

    pub fn len(&self) -> (r: usize)
        ensures
            r == self.slots().len(),
    {
        self.mem.len()
    }

    /// Stores `data` under a free index, the last freed one if any, else a new
    /// one; the stored value records that index.
    pub fn append(&mut self, data: T) -> (r: usize)
        requires
            old(self).wf(),
            old(self).slots().len() < usize::MAX,
        ensures
            final(self).wf(),
            old(self).freed().len() == 0 ==> {
                &&& r == old(self).slots().len()
                &&& final(self).slots() == old(self).slots().push(data.with_index(r))
                &&& final(self).freed() == old(self).freed()
            },
            old(self).freed().len() > 0 ==> {
                &&& r == old(self).freed().last()
                &&& final(self).slots() == old(self).slots().update(r as int, data.with_index(r))
                &&& final(self).freed() == old(self).freed().drop_last()
            },
    {
        let mut data = data;
        match self.recycle.pop() {
            Some(i) => {
                data.set_index(i);
                self.mem.set(i, data);
                assert forall|k: int| 0 <= k < self.freed().len() implies #[trigger] self.freed()[k] < self.slots().len() by {
                    assert(self.freed()[k] == old(self).freed()[k]);
                }
                i
            },
            None => {
                let idx = self.mem.len();
                data.set_index(idx);
                self.mem.push(data);
                idx
            },
        }
    }

    /// The value under `index`.
    pub fn read(&self, index: usize) -> (r: &T)
        requires
            index < self.slots().len(),
        ensures
            *r == self.slots()[index as int],
    {
        &self.mem[index]
    }

    /// Replaces the value under `index`.
    pub fn update(&mut self, index: usize, data: T)
        requires
            index < old(self).slots().len(),
            old(self).wf(),
        ensures
            final(self).slots() == old(self).slots().update(index as int, data),
            final(self).freed() == old(self).freed(),
            final(self).wf(),
    {
        self.mem.set(index, data);
    }

    /// Frees `index` for reuse; the value stays until the index is handed out again.
    pub fn delete(&mut self, index: usize)
        requires
            index < old(self).slots().len(),
            old(self).wf(),
        ensures
            final(self).slots() == old(self).slots(),
            final(self).freed() == old(self).freed().push(index),
            final(self).wf(),
    {
        self.recycle.push(index);
    }
}

} // verus!
