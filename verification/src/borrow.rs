use vstd::prelude::*;

verus! {

/// A mutable borrow that is set aside while shorter reborrows of it are in
/// use, and that can later be woken up to give back the full borrow.
///
/// The wrapped borrow is the one that the owner of the data handed out; its
/// final value is what the owner sees once every use of this value is over.
pub struct DormantMutRef<'a, T> {
    ptr: &'a mut T,
}

impl<'a, T> DormantMutRef<'a, T> {
    /// The wrapped borrow. `*self.target()` is the data as it stands now and
    /// `*final(self.target())` is the data that the owner gets back.
    pub closed spec fn target(self) -> &'a mut T {
        self.ptr
    }

    /// A borrow that is dropped leaves the data as it is then.
    pub broadcast proof fn lemma_resolved(self)
        ensures
            #[trigger] has_resolved(self) ==> *final(self.target()) == *self.target(),
    {
    }

    /// Sets a borrow aside.
    pub fn new(t: &'a mut T) -> (res: Self)
        ensures
            *res.target() == *old(t),
            *final(res.target()) == *final(t),
    {
        DormantMutRef { ptr: t }
    }

    /// Gives a short-lived shared view of the data.
    pub fn reborrow_shared(&self) -> (res: &T)
        ensures
            *res == *self.target(),
    {
        &*self.ptr
    }

    /// Gives a short-lived mutable borrow of the data; what is written through
    /// it stays in place for later reborrows and for the final owner.
    pub fn reborrow(&mut self) -> (res: &mut T)
        ensures
            *res == *old(self).target(),
            *final(self).target() == *final(res),
            *final(final(self).target()) == *final(old(self).target()),
    {
        &mut *self.ptr
    }

    /// Wakes the borrow up, for the rest of the lifetime it was set aside with.
    pub fn awaken(self) -> (res: &'a mut T)
        ensures
            *res == *self.target(),
            *final(res) == *final(self.target()),
    {
        self.ptr
    }
}

} // verus!
