//! Version and transaction management: snapshot isolation with a single
//! writer. A read transaction pins the root its snapshot was taken at; a
//! write transaction works against a new root and schedules the pages it
//! superseded for reclamation, keyed by its version. Pending pages graduate
//! into the durable free list only at a checkpoint, when no older snapshot
//! can still reference them.

use vstd::prelude::*;

use crate::PageId;

verus! {

/// A reader's pinned snapshot: the root it captured and the version stamp.
pub struct ReadTransaction {
    pub root: PageId,
    pub version: u64,
    pub height: Ghost<nat>,
}

/// The single writer's working state: the root of the tree it is building
/// and the pages it has superseded, to be reclaimed once the version
/// retires.
pub struct WriteTransaction {
    pub root: PageId,
    pub version: u64,
    pub freed: Vec<PageId>,
    pub height: Ghost<nat>,
}

/// Pages superseded by the writer of `version`, awaiting reclamation.
pub struct PendingBucket {
    pub version: u64,
    pub freed: Vec<PageId>,
}

/// The reclamation queue flattened: every page id awaiting reuse, oldest
/// version first.
pub open spec fn pending_freed(pending: Seq<PendingBucket>) -> Seq<PageId>
    decreases pending.len(),
{
    if pending.len() == 0 {
        Seq::empty()
    } else {
        pending_freed(pending.drop_last()) + pending.last().freed@
    }
}

/// Publishes roots to readers and holds the reclamation queue.
pub struct TransactionManager {
    pub current_root: PageId,
    pub current_version: u64,
    pub pending: Vec<PendingBucket>,
    pub height: Ghost<nat>,
}

impl TransactionManager {
    /// Manager for a tree whose published root is `root`.
    pub fn new(root: PageId, Ghost(height): Ghost<nat>) -> (m: TransactionManager)
        ensures
            m.current_root == root,
            m.current_version == 0,
            m.pending@ =~= Seq::<PendingBucket>::empty(),
            m.height@ == height,
    {
        TransactionManager {
            current_root: root,
            current_version: 0,
            pending: Vec::new(),
            height: Ghost(height),
        }
    }

    /// Open a reader snapshot: it captures the published root and version.
    pub fn read_transaction(&self) -> (tx: ReadTransaction)
        ensures
            tx.root == self.current_root,
            tx.version == self.current_version,
            tx.height@ == self.height@,
    {
        ReadTransaction { root: self.current_root, version: self.current_version, height: self.height }
    }

    /// Open the writer slot. Exclusivity is enforced by the exclusive borrow
    /// of the tree that every mutating operation takes.
    pub fn insert_transaction(&self) -> (tx: WriteTransaction)
        ensures
            tx.root == self.current_root,
            tx.version == self.current_version,
            tx.freed@ =~= Seq::<PageId>::empty(),
            tx.height@ == self.height@,
    {
        WriteTransaction {
            root: self.current_root,
            version: self.current_version,
            freed: Vec::new(),
            height: self.height,
        }
    }

    /// Publish the writer's root: new read transactions see it at once;
    /// snapshots already open keep their captured root. The superseded pages
    /// enter the reclamation queue under the writer's version.
    pub fn commit(&mut self, tx: WriteTransaction)
        ensures
            final(self).current_root == tx.root,
            final(self).height@ == tx.height@,
            final(self).current_version == if old(self).current_version < u64::MAX {
                (old(self).current_version + 1) as u64
            } else {
                u64::MAX
            },
            final(self).pending@.len() == old(self).pending@.len() + 1,
            final(self).pending@.last().freed@ == tx.freed@,
            forall|i: int|
                0 <= i < old(self).pending@.len() ==> final(self).pending@[i] == old(self).pending@[i],
    {
        let version = if self.current_version < u64::MAX {
            self.current_version + 1
        } else {
            u64::MAX
        };
        self.current_version = version;
        self.current_root = tx.root;
        self.height = tx.height;
        self.pending.push(PendingBucket { version, freed: tx.freed });
    }

    /// Drain the reclamation queue: called at a checkpoint, when the
    /// exclusive borrow guarantees every older snapshot has ended. Returns
    /// the page ids that may rejoin the free list.
    pub fn collect_pending(&mut self) -> (freed: Vec<PageId>)
        ensures
            final(self).pending@ =~= Seq::<PendingBucket>::empty(),
            final(self).current_root == old(self).current_root,
            final(self).current_version == old(self).current_version,
            final(self).height@ == old(self).height@,
            freed@ == pending_freed(old(self).pending@),
    {
        let mut freed: Vec<PageId> = Vec::new();
        let mut bi: usize = 0;
        while bi < self.pending.len()
            invariant
                bi <= self.pending@.len(),
                self.current_root == old(self).current_root,
                self.current_version == old(self).current_version,
                self.height@ == old(self).height@,
                self.pending@ == old(self).pending@,
                freed@ == pending_freed(self.pending@.take(bi as int)),
            decreases self.pending@.len() - bi,
        {
            let ghost pre = freed@;
            let bucket = &self.pending[bi];
            let mut fi: usize = 0;
            while fi < bucket.freed.len()
                invariant
                    fi <= bucket.freed@.len(),
                    freed@ == pre + bucket.freed@.take(fi as int),
                decreases bucket.freed@.len() - fi,
            {
                freed.push(bucket.freed[fi]);
                proof {
                    assert(bucket.freed@.take(fi + 1) =~= bucket.freed@.take(fi as int).push(
                        bucket.freed@[fi as int],
                    ));
                }
                fi = fi + 1;
            }
            proof {
                assert(bucket.freed@.take(bucket.freed@.len() as int) =~= bucket.freed@);
                assert(self.pending@.take(bi + 1).drop_last() =~= self.pending@.take(bi as int));
                assert(self.pending@.take(bi + 1).last() == self.pending@[bi as int]);
            }
            bi = bi + 1;
        }
        proof {
            assert(self.pending@.take(self.pending@.len() as int) =~= self.pending@);
        }
        self.pending = Vec::new();
        freed
    }
}

} // verus!
