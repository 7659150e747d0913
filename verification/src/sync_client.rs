//! Request bookkeeping of the synchronization client. Each operation owns
//! one slot, and at most one request per slot is current: beginning a new
//! request for a slot supersedes the previous one, and a late response that
//! carries a superseded generation number is detected and discarded.

use vstd::prelude::*;

verus! {

/// The operations that each own one request slot.
#[derive(Clone, Copy, Debug, PartialEq, Eq, Structural)]
pub enum RequestSlot {
    List,
    Add,
    Delete,
    Flush,
    InsertImage,
    DeleteFragment,
    UploadImage,
}

/// One generation counter per slot. A response is acted on only while its
/// generation is still the slot's newest.
#[derive(Clone, Copy, Debug, PartialEq, Eq, Structural)]
pub struct SyncSlots {
    pub list: u64,
    pub add: u64,
    pub delete: u64,
    pub flush: u64,
    pub insert_image: u64,
    pub delete_fragment: u64,
    pub upload_image: u64,
}

/// The generation a slot currently stands at.
pub open spec fn gen_of(s: SyncSlots, slot: RequestSlot) -> u64 {
    match slot {
        RequestSlot::List => s.list,
        RequestSlot::Add => s.add,
        RequestSlot::Delete => s.delete,
        RequestSlot::Flush => s.flush,
        RequestSlot::InsertImage => s.insert_image,
        RequestSlot::DeleteFragment => s.delete_fragment,
        RequestSlot::UploadImage => s.upload_image,
    }
}

impl SyncSlots {
    /// No request issued yet: every slot at generation zero.
    pub fn new() -> (r: SyncSlots)
        ensures
            forall|slot: RequestSlot| gen_of(r, slot) == 0u64,
    {
        SyncSlots {
            list: 0,
            add: 0,
            delete: 0,
            flush: 0,
            insert_image: 0,
            delete_fragment: 0,
            upload_image: 0,
        }
    }

    /// Issues a new request for a slot: the slot moves to a fresh
    /// generation, which is returned to tag the request; every response
    /// tagged with an older generation is thereby superseded. No other slot
    /// moves.
    pub fn begin(&mut self, slot: RequestSlot) -> (g: u64)
        requires
            gen_of(*old(self), slot) < u64::MAX,
        ensures
            g == gen_of(*final(self), slot),
            gen_of(*final(self), slot) == gen_of(*old(self), slot) + 1,
            forall|other: RequestSlot|
                other != slot ==> gen_of(*final(self), other) == gen_of(*old(self), other),
    {
        match slot {
            RequestSlot::List => {
                self.list = self.list + 1;
                self.list
            },
            RequestSlot::Add => {
                self.add = self.add + 1;
                self.add
            },
            RequestSlot::Delete => {
                self.delete = self.delete + 1;
                self.delete
            },
            RequestSlot::Flush => {
                self.flush = self.flush + 1;
                self.flush
            },
            RequestSlot::InsertImage => {
                self.insert_image = self.insert_image + 1;
                self.insert_image
            },
            RequestSlot::DeleteFragment => {
                self.delete_fragment = self.delete_fragment + 1;
                self.delete_fragment
            },
            RequestSlot::UploadImage => {
                self.upload_image = self.upload_image + 1;
                self.upload_image
            },
        }
    }

    /// Whether a response tagged with generation `g` is still the newest
    /// request of its slot; a superseded response answers `false` and is to
    /// be discarded.
    pub fn is_current(&self, slot: RequestSlot, g: u64) -> (r: bool)
        ensures
            r <==> g == gen_of(*self, slot),
    {
        match slot {
            RequestSlot::List => g == self.list,
            RequestSlot::Add => g == self.add,
            RequestSlot::Delete => g == self.delete,
            RequestSlot::Flush => g == self.flush,
            RequestSlot::InsertImage => g == self.insert_image,
            RequestSlot::DeleteFragment => g == self.delete_fragment,
            RequestSlot::UploadImage => g == self.upload_image,
        }
    }
}

} // verus!
