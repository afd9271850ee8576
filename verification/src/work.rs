//! Work items: the archive locators the master hands out.
use vstd::prelude::*;

verus! {

/// One work item: a storage-bucket-qualified locator and the queue's own
/// identifier for it.
pub struct WorkItem {
    pub locator: Vec<u8>,
    pub id: Vec<u8>,
}

/// The model of a work item.
pub struct WorkItemModel {
    pub locator: Seq<u8>,
    pub id: Seq<u8>,
}

impl View for WorkItem {
    type V = WorkItemModel;

    open spec fn view(&self) -> WorkItemModel {
        WorkItemModel { locator: self.locator@, id: self.id@ }
    }
}

/// Position of the first occurrence of `b` in `s` at or after `i`.
pub open spec fn find_byte_from(s: Seq<u8>, b: u8, i: int) -> Option<int>
    decreases s.len() - i,
{
    if i < 0 || i >= s.len() {
        None
    } else if s[i] == b {
        Some(i)
    } else {
        find_byte_from(s, b, i + 1)
    }
}

/// The bucket of a locator: what stands before its first path separator,
/// or all of it when there is none.
pub open spec fn bucket_of(locator: Seq<u8>) -> Seq<u8> {
    match find_byte_from(locator, 47u8, 0) {
        Some(i) => locator.subrange(0, i),
        None => locator,
    }
}

/// The key of a locator: what follows its first path separator, or
/// nothing when there is none.
pub open spec fn key_of(locator: Seq<u8>) -> Seq<u8> {
    match find_byte_from(locator, 47u8, 0) {
        Some(i) => locator.subrange(i + 1, locator.len() as int),
        None => Seq::<u8>::empty(),
    }
}

/// Split a locator on its first path separator into the storage bucket
/// and the object key.
pub fn split_locator(locator: &Vec<u8>) -> (r: (Vec<u8>, Vec<u8>))
    ensures
        r.0@ == bucket_of(locator@),
        r.1@ == key_of(locator@),
{
    let mut i: usize = 0;
    while i < locator.len()
        invariant
            i <= locator@.len(),
            find_byte_from(locator@, 47u8, 0) == find_byte_from(locator@, 47u8, i as int),
        decreases locator@.len() - i,
    {
        if locator[i] == 47 {
            let bucket = crate::codec::copy_range(locator, 0, i);
            let key = crate::codec::copy_range(locator, i + 1, locator.len());
            return (bucket, key);
        }
        i = i + 1;
    }
    let bucket = crate::codec::copy_range(locator, 0, locator.len());
    proof {
        assert(bucket@ =~= locator@);
    }
    (bucket, Vec::new())
}

} // verus!
