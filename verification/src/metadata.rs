//! Durable metadata: the checkpointed root, the page manager state (next-id
//! watermark and free list), and the static settings fixed at creation.

use vstd::prelude::*;

use crate::{BTreeStoreError, PageId};

verus! {

/// Allocation state: the next fresh page id and the ids available for
/// reuse. Ids are handed out from the watermark alone, so that no page a
/// live snapshot can still reach is ever rewritten; reclaimed ids gather in
/// the free list until a compaction can reuse them.
pub struct PageManager {
    pub next_page: PageId,
    pub free: Vec<PageId>,
}

/// The durable record: the checkpointed root and the page manager state.
pub struct Metadata {
    pub root: PageId,
    pub page_manager: PageManager,
}

impl Metadata {
    /// Fresh metadata for an empty tree rooted at page 1.
    pub fn new() -> (m: Metadata)
        ensures
            m.root == 1,
            m.page_manager.next_page == 2,
            m.page_manager.free@ =~= Seq::<PageId>::empty(),
    {
        Metadata { root: 1, page_manager: PageManager { next_page: 2, free: Vec::new() } }
    }

    pub fn set_root(&mut self, root: PageId)
        ensures
            final(self).root == root,
            final(self).page_manager == old(self).page_manager,
    {
        self.root = root;
    }
}

impl Metadata {
    /// The durable image: root id, next-id watermark and free-list length,
    /// then the free list, all little-endian.
    pub fn write(&self) -> (r: Result<Vec<u8>, BTreeStoreError>)
        ensures
            match r {
                Ok(b) => {
                    &&& b@.len() == 12 + 4 * self.page_manager.free@.len()
                    &&& crate::codec::decode_u32(b@, 0) == self.root
                    &&& crate::codec::decode_u32(b@, 4) == self.page_manager.next_page
                    &&& crate::codec::decode_u32(b@, 8) == self.page_manager.free@.len()
                    &&& forall|i: int|
                        0 <= i < self.page_manager.free@.len() ==> crate::codec::decode_u32(
                            b@,
                            12 + 4 * i,
                        ) == self.page_manager.free@[i]
                },
                Err(e) => e == BTreeStoreError::InvariantViolation
                    && self.page_manager.free@.len() > u32::MAX,
            },
    {
        if self.page_manager.free.len() > (u32::MAX as usize) {
            return Err(BTreeStoreError::InvariantViolation);
        }
        let mut out: Vec<u8> = Vec::new();
        crate::codec::put_u32_le(&mut out, self.root);
        crate::codec::put_u32_le(&mut out, self.page_manager.next_page);
        crate::codec::put_u32_le(&mut out, self.page_manager.free.len() as u32);
        let mut i: usize = 0;
        while i < self.page_manager.free.len()
            invariant
                i <= self.page_manager.free@.len(),
                out@.len() == 12 + 4 * i,
                crate::codec::decode_u32(out@, 0) == self.root,
                crate::codec::decode_u32(out@, 4) == self.page_manager.next_page,
                crate::codec::decode_u32(out@, 8) == self.page_manager.free@.len(),
                self.page_manager.free@.len() <= u32::MAX,
                forall|j: int|
                    0 <= j < i ==> crate::codec::decode_u32(out@, 12 + 4 * j)
                        == self.page_manager.free@[j],
            decreases self.page_manager.free@.len() - i,
        {
            crate::codec::put_u32_le(&mut out, self.page_manager.free[i]);
            i = i + 1;
        }
        Ok(out)
    }

    /// Parse a durable image back; refused when truncated.
    pub fn read(b: &Vec<u8>) -> (r: Result<Metadata, BTreeStoreError>)
        ensures
            match r {
                Ok(m) => {
                    &&& b@.len() >= 12
                    &&& m.root == crate::codec::decode_u32(b@, 0)
                    &&& m.page_manager.next_page == crate::codec::decode_u32(b@, 4)
                    &&& m.page_manager.free@.len() == crate::codec::decode_u32(b@, 8)
                    &&& forall|i: int|
                        0 <= i < m.page_manager.free@.len() ==> #[trigger] m.page_manager.free@[i]
                            == crate::codec::decode_u32(b@, 12 + 4 * i)
                },
                Err(e) => {
                    &&& e == BTreeStoreError::CorruptedPage
                    &&& (b@.len() < 12 || (crate::codec::decode_u32(b@, 8) as int) > (b@.len()
                        - 12) / 4)
                },
            },
    {
        let n = b.len();
        if n < 12 {
            return Err(BTreeStoreError::CorruptedPage);
        }
        let root = crate::codec::get_u32_le(b, 0);
        let next_page = crate::codec::get_u32_le(b, 4);
        let flen = crate::codec::get_u32_le(b, 8) as usize;
        if flen > (n - 12) / 4 {
            return Err(BTreeStoreError::CorruptedPage);
        }
        let mut free: Vec<PageId> = Vec::new();
        let mut i: usize = 0;
        while i < flen
            invariant
                i <= flen,
                free@.len() == i,
                flen <= (b@.len() - 12) / 4,
                b@.len() <= usize::MAX,
                forall|j: int|
                    0 <= j < i ==> #[trigger] free@[j] == crate::codec::decode_u32(b@, 12 + 4 * j),
            decreases flen - i,
        {
            free.push(crate::codec::get_u32_le(b, 12 + 4 * i));
            i = i + 1;
        }
        Ok(Metadata { root, page_manager: PageManager { next_page, free } })
    }
}

/// Immutable once created: page size and key buffer size, written once to
/// their own file and read back on open.
pub struct StaticSettings {
    pub page_size: u16,
    pub key_buffer_size: u32,
}

impl StaticSettings {
    /// The fixed six-byte header: u16 page size, u32 key buffer size.
    pub fn write(&self) -> (b: Vec<u8>)
        ensures
            b@.len() == 6,
            crate::codec::decode_u16(b@, 0) == self.page_size,
            crate::codec::decode_u32(b@, 2) == self.key_buffer_size,
    {
        let mut out: Vec<u8> = Vec::new();
        crate::codec::put_u16_le(&mut out, self.page_size);
        crate::codec::put_u32_le(&mut out, self.key_buffer_size);
        out
    }

    /// Parse the header back; refused when truncated.
    pub fn read(b: &Vec<u8>) -> (r: Result<StaticSettings, BTreeStoreError>)
        ensures
            match r {
                Ok(s) => {
                    &&& b@.len() >= 6
                    &&& s.page_size == crate::codec::decode_u16(b@, 0)
                    &&& s.key_buffer_size == crate::codec::decode_u32(b@, 2)
                },
                Err(e) => e == BTreeStoreError::CorruptedPage && b@.len() < 6,
            },
    {
        let n = b.len();
        if n < 6 {
            return Err(BTreeStoreError::CorruptedPage);
        }
        let page_size = crate::codec::get_u16_le(b, 0);
        let key_buffer_size = crate::codec::get_u32_le(b, 2);
        Ok(StaticSettings { page_size, key_buffer_size })
    }
}

} // verus!
