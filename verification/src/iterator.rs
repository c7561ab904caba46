//! Ordered range scans. A B+tree with parent pointers would link leaves;
//! under copy-on-write that is impossible, so the iterator keeps the stack
//! of internal pages leading to its current leaf, together with the next
//! child to visit under each. When the current leaf is exhausted it pops
//! until a frame has an unvisited child and descends leftmost from there.

use vstd::prelude::*;

use crate::backtrack::Frame;
use crate::node::{
    child_hi, child_lo, entry_seq, key_ub, kids_entries, lemma_kids_entries_one,
    lemma_kids_entries_split, subtree_entries, subtree_wf, Node,
};
use crate::pages::{valid_page_size, PageStore};
use crate::version_management::ReadTransaction;
use crate::PageId;

verus! {

/// The concatenated entries of the unvisited children of every frame on
/// the stack, innermost frame first.
pub open spec fn frames_rem(s: PageStore, stack: Seq<Frame>, info: Seq<(nat, int, int)>) -> Seq<
    (u64, u64),
>
    decreases stack.len(),
{
    if stack.len() == 0 || stack.len() != info.len() {
        Seq::empty()
    } else {
        let f = stack.last();
        if (f.id as int) < s.pages@.len() && s.pages@[f.id as int] is Internal && info.last().0
            >= 1 {
            let n = s.pages@[f.id as int]->Internal_0;
            kids_entries(
                s.pages@,
                n.children@.skip(f.pos as int + 1),
                (info.last().0 - 1) as nat,
            ) + frames_rem(s, stack.drop_last(), info.drop_last())
        } else {
            Seq::empty()
        }
    }
}

/// A non-restartable scan over the snapshot a read transaction pinned.
pub struct BTreeIterator<'a> {
    pub start: u64,
    pub end: u64,
    pub tx: ReadTransaction,
    pub pages: &'a PageStore,
    pub stack: Vec<Frame>,
    pub current_leaf: PageId,
    pub current_position: usize,
    pub info: Ghost<Seq<(nat, int, int)>>,
    pub leaf_lo: Ghost<int>,
    pub leaf_hi: Ghost<int>,
}

impl<'a> BTreeIterator<'a> {
    /// The entries not yet produced: the tail of the current leaf, then the
    /// unvisited subtrees recorded on the stack.
    pub open spec fn rem(self) -> Seq<(u64, u64)> {
        entry_seq(self.pages.pages@[self.current_leaf as int]->Leaf_0).skip(
            self.current_position as int,
        ) + frames_rem(*self.pages, self.stack@, self.info@)
    }

    /// Structural soundness: every frame is a well-formed internal page
    /// whose chosen child leads to the next frame and finally to the
    /// current leaf, and every remaining key is at least `start`.
    pub open spec fn wf_iter(self) -> bool {
        &&& valid_page_size(self.pages.page_size)
        &&& self.stack@.len() == self.info@.len()
        &&& (forall|i: int|
            0 <= i < self.stack@.len() ==> self.pages.wf_subtree(
                (#[trigger] self.stack@[i]).id,
                self.info@[i].0,
                self.info@[i].1,
                self.info@[i].2,
                i == 0,
            ))
        &&& (forall|i: int|
            0 <= i < self.stack@.len() - 1 ==> crate::backtrack::frame_links(
                *self.pages,
                #[trigger] self.stack@[i],
                self.info@[i].0,
                self.info@[i].1,
                self.info@[i].2,
                self.stack@[i + 1].id,
                self.info@[i + 1].0,
                self.info@[i + 1].1,
                self.info@[i + 1].2,
            ))
        &&& (self.stack@.len() >= 1 ==> crate::backtrack::frame_links(
            *self.pages,
            self.stack@.last(),
            self.info@.last().0,
            self.info@.last().1,
            self.info@.last().2,
            self.current_leaf,
            0,
            self.leaf_lo@,
            self.leaf_hi@,
        ))
        &&& self.pages.wf_subtree(
            self.current_leaf,
            0,
            self.leaf_lo@,
            self.leaf_hi@,
            self.stack@.len() == 0,
        )
        &&& self.pages.pages@[self.current_leaf as int] is Leaf
        &&& self.current_position
            <= self.pages.pages@[self.current_leaf as int]->Leaf_0.keys@.len()
        &&& (forall|i: int|
            0 <= i < self.rem().len() ==> (#[trigger] self.rem()[i]).0 >= self.start)
    }

    /// Find the starting leaf for `range.start` and record the path leading
    /// to it; this is the only search needed, afterwards the scan is purely
    /// in-order. The remaining entries are exactly the tree's entries from
    /// the first key at or above `range.start` on.
    pub fn new(
        tx: ReadTransaction,
        pages: &'a PageStore,
        start: u64,
        end: u64,
        Ghost(hroot): Ghost<nat>,
    ) -> (it: BTreeIterator<'a>)
        requires
            valid_page_size(pages.page_size),
            pages.wf_subtree(tx.root, hroot, 0, key_ub(), true),
            tx.height@ == hroot,
        ensures
            it.wf_iter(),
            it.start == start,
            it.end == end,
            it.pages == pages,
            exists|n: int|
                {
                    &&& 0 <= n <= subtree_entries(pages.pages@, tx.root, hroot).len()
                    &&& it.rem() == subtree_entries(pages.pages@, tx.root, hroot).skip(n)
                    &&& (forall|i: int|
                        0 <= i < n ==> (#[trigger] subtree_entries(pages.pages@, tx.root, hroot)[i]).0
                            < start)
                },
    {
        let ghost full = subtree_entries(pages.pages@, tx.root, hroot);
        let mut stack: Vec<Frame> = Vec::new();
        let ghost mut info: Seq<(nat, int, int)> = Seq::empty();
        let mut cur: PageId = tx.root;
        let ghost mut h: nat = hroot;
        let ghost mut lo: int = 0;
        let ghost mut hi: int = key_ub();
        let ghost mut done: Seq<(u64, u64)> = Seq::empty();
        loop
            invariant_except_break
                valid_page_size(pages.page_size),
                stack@.len() == info.len(),
                pages.wf_subtree(cur, h, lo, hi, stack@.len() == 0),
                lo <= start as int && (start as int) < hi,
                forall|i: int|
                    0 <= i < stack@.len() ==> pages.wf_subtree(
                        (#[trigger] stack@[i]).id,
                        info[i].0,
                        info[i].1,
                        info[i].2,
                        i == 0,
                    ),
                forall|i: int|
                    0 <= i < stack@.len() - 1 ==> crate::backtrack::frame_links(
                        *pages,
                        #[trigger] stack@[i],
                        info[i].0,
                        info[i].1,
                        info[i].2,
                        stack@[i + 1].id,
                        info[i + 1].0,
                        info[i + 1].1,
                        info[i + 1].2,
                    ),
                stack@.len() >= 1 ==> crate::backtrack::frame_links(
                    *pages,
                    stack@.last(),
                    info.last().0,
                    info.last().1,
                    info.last().2,
                    cur,
                    h,
                    lo,
                    hi,
                ),
                full == done + (subtree_entries(pages.pages@, cur, h) + frames_rem(
                    *pages,
                    stack@,
                    info,
                )),
                forall|i: int| 0 <= i < done.len() ==> (#[trigger] done[i]).0 < start,
                forall|i: int|
                    0 <= i < frames_rem(*pages, stack@, info).len() ==> (#[trigger] frames_rem(
                        *pages,
                        stack@,
                        info,
                    )[i]).0 >= start,
            ensures
                stack@.len() == info.len(),
                pages.wf_subtree(cur, 0, lo, hi, stack@.len() == 0),
                pages.pages@[cur as int] is Leaf,
                lo <= start as int && (start as int) < hi,
                forall|i: int|
                    0 <= i < stack@.len() ==> pages.wf_subtree(
                        (#[trigger] stack@[i]).id,
                        info[i].0,
                        info[i].1,
                        info[i].2,
                        i == 0,
                    ),
                forall|i: int|
                    0 <= i < stack@.len() - 1 ==> crate::backtrack::frame_links(
                        *pages,
                        #[trigger] stack@[i],
                        info[i].0,
                        info[i].1,
                        info[i].2,
                        stack@[i + 1].id,
                        info[i + 1].0,
                        info[i + 1].1,
                        info[i + 1].2,
                    ),
                stack@.len() >= 1 ==> crate::backtrack::frame_links(
                    *pages,
                    stack@.last(),
                    info.last().0,
                    info.last().1,
                    info.last().2,
                    cur,
                    0,
                    lo,
                    hi,
                ),
                full == done + (subtree_entries(pages.pages@, cur, 0) + frames_rem(
                    *pages,
                    stack@,
                    info,
                )),
                forall|i: int| 0 <= i < done.len() ==> (#[trigger] done[i]).0 < start,
                forall|i: int|
                    0 <= i < frames_rem(*pages, stack@, info).len() ==> (#[trigger] frames_rem(
                        *pages,
                        stack@,
                        info,
                    )[i]).0 >= start,
            decreases h,
        {
            let node = pages.get_page(cur);
            match node {
                Node::Leaf(_) => {
                    break;
                },
                Node::Internal(n) => {
                    let pos = match crate::node::binary_search_keys(&n.keys, start) {
                        Ok(p) => p + 1,
                        Err(p) => p,
                    };
                    let ghost keys = n.keys@;
                    let ghost kids = n.children@;
                    let ghost hc = (h - 1) as nat;
                    proof {
                        assert(child_lo(keys, lo, pos as int) <= start as int);
                        assert((start as int) < child_hi(keys, hi, pos as int));
                        crate::node::lemma_kids_entries_props(
                            pages.pages@,
                            pages.leaf_cap(),
                            pages.internal_cap(),
                            keys,
                            kids,
                            pos as int,
                            hc,
                            lo,
                            hi,
                        );
                        crate::node::lemma_kids_skip_props(
                            pages.pages@,
                            pages.leaf_cap(),
                            pages.internal_cap(),
                            keys,
                            kids,
                            pos as int + 1,
                            hc,
                            lo,
                            hi,
                        );
                        lemma_kids_entries_split(pages.pages@, kids, pos as int, hc);
                        lemma_kids_entries_split(pages.pages@, kids.skip(pos as int), 1, hc);
                        assert(kids.skip(pos as int).take(1) =~= seq![kids[pos as int]]);
                        assert(kids.skip(pos as int).skip(1) =~= kids.skip(pos as int + 1));
                        lemma_kids_entries_one(pages.pages@, kids[pos as int], hc);
                    }
                    let nxt = n.children[pos];
                    let ghost stack0 = stack@;
                    let ghost info0 = info;
                    let ghost fr0 = frames_rem(*pages, stack0, info0);
                    stack.push(Frame { id: cur, pos });
                    proof {
                        info = info.push((h, lo, hi));
                        let pre = kids_entries(pages.pages@, kids.take(pos as int), hc);
                        let mid = subtree_entries(pages.pages@, kids[pos as int], hc);
                        let post = kids_entries(pages.pages@, kids.skip(pos as int + 1), hc);
                        assert(stack@.drop_last() =~= stack0);
                        assert(info.drop_last() =~= info0);
                        assert(frames_rem(*pages, stack@.drop_last(), info.drop_last()) == fr0);
                        assert(frames_rem(*pages, stack@, info) == post + fr0);
                        assert(subtree_entries(pages.pages@, cur, h) == pre + mid + post);
                        assert(done + (subtree_entries(pages.pages@, cur, h) + fr0) =~= (done
                            + pre) + (mid + (post + fr0)));
                        done = done + pre;
                        assert forall|i: int|
                            0 <= i < done.len() implies (#[trigger] done[i]).0 < start by {
                            if i >= done.len() - pre.len() {
                                assert(done[i] == pre[i - (done.len() - pre.len())]);
                                assert((pre[i - (done.len() - pre.len())].0 as int) < child_lo(
                                    keys,
                                    lo,
                                    pos as int,
                                ));
                            }
                        }
                        assert forall|i: int|
                            0 <= i < (post + fr0).len() implies ((post + fr0)[i]).0
                            >= start by {
                            if i < post.len() {
                                assert((post + fr0)[i] == post[i]);
                                assert((post[i].0 as int) >= child_hi(keys, hi, pos as int));
                            } else {
                                assert((post + fr0)[i] == fr0[i - post.len()]);
                            }
                        }
                        lo = child_lo(keys, lo, pos as int);
                        hi = child_hi(keys, hi, pos as int);
                        h = hc;
                    }
                    cur = nxt;
                    proof {
                        assert forall|i: int|
                            0 <= i < stack@.len() - 1 implies crate::backtrack::frame_links(
                            *pages,
                            #[trigger] stack@[i],
                            info[i].0,
                            info[i].1,
                            info[i].2,
                            stack@[i + 1].id,
                            info[i + 1].0,
                            info[i + 1].1,
                            info[i + 1].2,
                        ) by {
                            if i < stack@.len() - 2 {
                                assert(stack@[i] == stack@.drop_last()[i]);
                            }
                        }
                    }
                },
            }
        }
        // position within the starting leaf: the first key at or above start
        let leaf_pos = {
            let node = pages.get_page(cur);
            match node {
                Node::Leaf(l) => {
                    match crate::node::binary_search_keys(&l.keys, start) {
                        Ok(p) => p,
                        Err(p) => p,
                    }
                },
                Node::Internal(_) => {
                    proof {
                        assert(false);
                    }
                    0
                },
            }
        };
        let it = BTreeIterator {
            start,
            end,
            tx,
            pages,
            stack,
            current_leaf: cur,
            current_position: leaf_pos,
            info: Ghost(info),
            leaf_lo: Ghost(lo),
            leaf_hi: Ghost(hi),
        };
        proof {
            let l = pages.pages@[cur as int]->Leaf_0;
            let le = entry_seq(l);
            let fr = frames_rem(*pages, stack@, info);
            let ghost done2 = done + le.take(leaf_pos as int);
            assert(le =~= le.take(leaf_pos as int) + le.skip(leaf_pos as int));
            assert(done + (le + fr) =~= done2 + (le.skip(leaf_pos as int) + fr));
            assert(it.rem() == le.skip(leaf_pos as int) + fr);
            assert forall|i: int| 0 <= i < done2.len() implies (#[trigger] done2[i]).0 < start by {
                if i >= done.len() {
                    assert(done2[i] == le.take(leaf_pos as int)[i - done.len()]);
                    assert(l.keys@[i - done.len()] < start);
                }
            }
            assert forall|i: int|
                0 <= i < it.rem().len() implies (#[trigger] it.rem()[i]).0 >= start by {
                if i < le.skip(leaf_pos as int).len() {
                    assert(it.rem()[i] == le.skip(leaf_pos as int)[i]);
                    assert(l.keys@[leaf_pos + i] >= start);
                } else {
                    assert(it.rem()[i] == fr[i - le.skip(leaf_pos as int).len()]);
                }
            }
            assert(full == done2 + it.rem());
            assert(it.rem() =~= full.skip(done2.len() as int));
        }
        it
    }
    /// Walk to the leftmost leaf under `starting_node`, pushing one frame
    /// per internal page passed; the remaining entries are unchanged as a
    /// sequence, merely redistributed between the leaf and the stack.
    pub fn descend_leftmost(
        &mut self,
        starting_node: PageId,
        Ghost(h): Ghost<nat>,
        Ghost(lo): Ghost<int>,
        Ghost(hi): Ghost<int>,
    )
        requires
            valid_page_size(old(self).pages.page_size),
            old(self).stack@.len() == old(self).info@.len(),
            old(self).stack@.len() >= 1,
            forall|i: int|
                0 <= i < old(self).stack@.len() ==> old(self).pages.wf_subtree(
                    (#[trigger] old(self).stack@[i]).id,
                    old(self).info@[i].0,
                    old(self).info@[i].1,
                    old(self).info@[i].2,
                    i == 0,
                ),
            forall|i: int|
                0 <= i < old(self).stack@.len() - 1 ==> crate::backtrack::frame_links(
                    *old(self).pages,
                    #[trigger] old(self).stack@[i],
                    old(self).info@[i].0,
                    old(self).info@[i].1,
                    old(self).info@[i].2,
                    old(self).stack@[i + 1].id,
                    old(self).info@[i + 1].0,
                    old(self).info@[i + 1].1,
                    old(self).info@[i + 1].2,
                ),
            crate::backtrack::frame_links(
                *old(self).pages,
                old(self).stack@.last(),
                old(self).info@.last().0,
                old(self).info@.last().1,
                old(self).info@.last().2,
                starting_node,
                h,
                lo,
                hi,
            ),
            old(self).pages.wf_subtree(starting_node, h, lo, hi, false),
        ensures
            final(self).pages == old(self).pages,
            final(self).tx == old(self).tx,
            final(self).start == old(self).start,
            final(self).end == old(self).end,
            final(self).stack@.len() == final(self).info@.len(),
            final(self).stack@.len() >= 1,
            forall|i: int|
                0 <= i < final(self).stack@.len() ==> final(self).pages.wf_subtree(
                    (#[trigger] final(self).stack@[i]).id,
                    final(self).info@[i].0,
                    final(self).info@[i].1,
                    final(self).info@[i].2,
                    i == 0,
                ),
            forall|i: int|
                0 <= i < final(self).stack@.len() - 1 ==> crate::backtrack::frame_links(
                    *final(self).pages,
                    #[trigger] final(self).stack@[i],
                    final(self).info@[i].0,
                    final(self).info@[i].1,
                    final(self).info@[i].2,
                    final(self).stack@[i + 1].id,
                    final(self).info@[i + 1].0,
                    final(self).info@[i + 1].1,
                    final(self).info@[i + 1].2,
                ),
            crate::backtrack::frame_links(
                *final(self).pages,
                final(self).stack@.last(),
                final(self).info@.last().0,
                final(self).info@.last().1,
                final(self).info@.last().2,
                final(self).current_leaf,
                0,
                final(self).leaf_lo@,
                final(self).leaf_hi@,
            ),
            final(self).pages.wf_subtree(
                final(self).current_leaf,
                0,
                final(self).leaf_lo@,
                final(self).leaf_hi@,
                false,
            ),
            final(self).pages.pages@[final(self).current_leaf as int] is Leaf,
            final(self).current_position == 0,
            final(self).rem() == subtree_entries(old(self).pages.pages@, starting_node, h)
                + frames_rem(*old(self).pages, old(self).stack@, old(self).info@),
    {
        let mut cur: PageId = starting_node;
        let ghost mut ch: nat = h;
        let ghost mut clo: int = lo;
        let ghost mut chi: int = hi;
        let ghost target = subtree_entries(self.pages.pages@, starting_node, h) + frames_rem(
            *self.pages,
            self.stack@,
            self.info@,
        );
        loop
            invariant_except_break
                valid_page_size(self.pages.page_size),
                self.pages == old(self).pages,
                self.tx == old(self).tx,
                self.start == old(self).start,
                self.end == old(self).end,
                self.stack@.len() == self.info@.len(),
                self.stack@.len() >= 1,
                forall|i: int|
                    0 <= i < self.stack@.len() ==> self.pages.wf_subtree(
                        (#[trigger] self.stack@[i]).id,
                        self.info@[i].0,
                        self.info@[i].1,
                        self.info@[i].2,
                        i == 0,
                    ),
                forall|i: int|
                    0 <= i < self.stack@.len() - 1 ==> crate::backtrack::frame_links(
                        *self.pages,
                        #[trigger] self.stack@[i],
                        self.info@[i].0,
                        self.info@[i].1,
                        self.info@[i].2,
                        self.stack@[i + 1].id,
                        self.info@[i + 1].0,
                        self.info@[i + 1].1,
                        self.info@[i + 1].2,
                    ),
                crate::backtrack::frame_links(
                    *self.pages,
                    self.stack@.last(),
                    self.info@.last().0,
                    self.info@.last().1,
                    self.info@.last().2,
                    cur,
                    ch,
                    clo,
                    chi,
                ),
                self.pages.wf_subtree(cur, ch, clo, chi, false),
                subtree_entries(self.pages.pages@, cur, ch) + frames_rem(
                    *self.pages,
                    self.stack@,
                    self.info@,
                ) == target,
            ensures
                self.pages == old(self).pages,
                self.tx == old(self).tx,
                self.start == old(self).start,
                self.end == old(self).end,
                self.stack@.len() == self.info@.len(),
                self.stack@.len() >= 1,
                forall|i: int|
                    0 <= i < self.stack@.len() ==> self.pages.wf_subtree(
                        (#[trigger] self.stack@[i]).id,
                        self.info@[i].0,
                        self.info@[i].1,
                        self.info@[i].2,
                        i == 0,
                    ),
                forall|i: int|
                    0 <= i < self.stack@.len() - 1 ==> crate::backtrack::frame_links(
                        *self.pages,
                        #[trigger] self.stack@[i],
                        self.info@[i].0,
                        self.info@[i].1,
                        self.info@[i].2,
                        self.stack@[i + 1].id,
                        self.info@[i + 1].0,
                        self.info@[i + 1].1,
                        self.info@[i + 1].2,
                    ),
                crate::backtrack::frame_links(
                    *self.pages,
                    self.stack@.last(),
                    self.info@.last().0,
                    self.info@.last().1,
                    self.info@.last().2,
                    cur,
                    ch,
                    clo,
                    chi,
                ),
                self.pages.wf_subtree(cur, ch, clo, chi, false),
                self.pages.pages@[cur as int] is Leaf,
                ch == 0,
                subtree_entries(self.pages.pages@, cur, ch) + frames_rem(
                    *self.pages,
                    self.stack@,
                    self.info@,
                ) == target,
            decreases ch,
        {
            let node = self.pages.get_page(cur);
            match node {
                Node::Leaf(_) => {
                    break;
                },
                Node::Internal(n) => {
                    let nxt = n.children[0];
                    let ghost kids = n.children@;
                    let ghost hc = (ch - 1) as nat;
                    let ghost stack0 = self.stack@;
                    let ghost info0 = self.info@;
                    let ghost fr0 = frames_rem(*self.pages, stack0, info0);
                    proof {
                        lemma_kids_entries_split(self.pages.pages@, kids, 1, hc);
                        assert(kids.take(1) =~= seq![kids[0]]);
                        lemma_kids_entries_one(self.pages.pages@, kids[0], hc);
                    }
                    self.stack.push(Frame { id: cur, pos: 0 });
                    proof {
                        self.info@ = info0.push((ch, clo, chi));
                        assert(self.stack@.drop_last() =~= stack0);
                        assert(self.info@.drop_last() =~= info0);
                        assert(frames_rem(*self.pages, self.stack@, self.info@) == kids_entries(
                            self.pages.pages@,
                            kids.skip(1),
                            hc,
                        ) + fr0);
                        assert(subtree_entries(self.pages.pages@, kids[0], hc) + (kids_entries(
                            self.pages.pages@,
                            kids.skip(1),
                            hc,
                        ) + fr0) =~= subtree_entries(self.pages.pages@, cur, ch) + fr0);
                        clo = clo;
                        chi = child_hi(n.keys@, chi, 0);
                        ch = hc;
                    }
                    cur = nxt;
                    proof {
                        assert forall|i: int|
                            0 <= i < self.stack@.len() - 1 implies crate::backtrack::frame_links(
                            *self.pages,
                            #[trigger] self.stack@[i],
                            self.info@[i].0,
                            self.info@[i].1,
                            self.info@[i].2,
                            self.stack@[i + 1].id,
                            self.info@[i + 1].0,
                            self.info@[i + 1].1,
                            self.info@[i + 1].2,
                        ) by {
                            if i < self.stack@.len() - 2 {
                                assert(self.stack@[i] == self.stack@.drop_last()[i]);
                            }
                        }
                    }
                },
            }
        }
        self.current_leaf = cur;
        self.current_position = 0;
        proof {
            self.leaf_lo@ = clo;
            self.leaf_hi@ = chi;
            let l = self.pages.pages@[cur as int]->Leaf_0;
            assert(entry_seq(l).skip(0) =~= entry_seq(l));
        }
    }

    /// Produce the next value whose key lies below `end`, advancing through
    /// right siblings as leaves are exhausted.
    pub fn next(&mut self) -> (r: Option<u64>)
        requires
            old(self).wf_iter(),
        ensures
            final(self).wf_iter(),
            final(self).pages == old(self).pages,
            final(self).start == old(self).start,
            final(self).end == old(self).end,
            match r {
                Some(v) => {
                    &&& old(self).rem().len() > 0
                    &&& old(self).rem()[0].0 < old(self).end
                    &&& v == old(self).rem()[0].1
                    &&& final(self).rem() == old(self).rem().skip(1)
                },
                None => {
                    &&& (old(self).rem().len() == 0 || old(self).rem()[0].0 >= old(self).end)
                    &&& final(self).rem() == old(self).rem()
                },
            },
    {
        let ghost rv = self.rem();
        let end = self.end;
        let (in_leaf, kcur, vcur) = {
            match self.pages.get_page(self.current_leaf) {
                Node::Leaf(l) => {
                    if self.current_position < l.keys.len() {
                        (true, l.keys[self.current_position], l.values[self.current_position])
                    } else {
                        (false, 0u64, 0u64)
                    }
                },
                Node::Internal(_) => {
                    proof {
                        assert(false);
                    }
                    (false, 0u64, 0u64)
                },
            }
        };
        if in_leaf {
            let ghost l = self.pages.pages@[self.current_leaf as int]->Leaf_0;
            let ghost tail = entry_seq(l).skip(self.current_position as int);
            proof {
                assert(tail.len() > 0);
                assert(rv[0] == tail[0]);
                assert(tail[0] == (kcur, vcur));
            }
            if kcur < end {
                self.current_position = self.current_position + 1;
                proof {
                    assert(entry_seq(l).skip(self.current_position as int) =~= tail.skip(1));
                    assert(self.rem() =~= rv.skip(1));
                    assert forall|i: int|
                        0 <= i < self.rem().len() implies (#[trigger] self.rem()[i]).0
                        >= self.start by {
                        assert(self.rem()[i] == rv[i + 1]);
                    }
                }
                return Some(vcur);
            } else {
                return None;
            }
        }
        // the leaf is exhausted: every remaining entry sits under the stack
        let ghost l0 = self.pages.pages@[self.current_leaf as int]->Leaf_0;
        proof {
            assert(entry_seq(l0).skip(self.current_position as int) =~= Seq::<(u64, u64)>::empty());
            assert(rv =~= frames_rem(*self.pages, self.stack@, self.info@));
            assert forall|i: int|
                0 <= i < self.stack@.len() implies (((#[trigger] self.stack@[i]).pos as int)
                    < self.pages.pages@[self.stack@[i].id as int]->Internal_0.children@.len()) by {
                if i < self.stack@.len() - 1 {
                    assert(crate::backtrack::frame_links(
                        *self.pages,
                        self.stack@[i],
                        self.info@[i].0,
                        self.info@[i].1,
                        self.info@[i].2,
                        self.stack@[i + 1].id,
                        self.info@[i + 1].0,
                        self.info@[i + 1].1,
                        self.info@[i + 1].2,
                    ));
                } else {
                    assert(self.stack@[i] == self.stack@.last());
                }
            }
            assert forall|i: int|
                0 <= i < self.stack@.len() implies (self.pages.pages@[(
            #[trigger] self.stack@[i]).id as int] is Internal && self.info@[i].0 >= 1
                    && (self.stack@[i].id as int) < self.pages.pages@.len()) by {
                if i < self.stack@.len() - 1 {
                    assert(crate::backtrack::frame_links(
                        *self.pages,
                        self.stack@[i],
                        self.info@[i].0,
                        self.info@[i].1,
                        self.info@[i].2,
                        self.stack@[i + 1].id,
                        self.info@[i + 1].0,
                        self.info@[i + 1].1,
                        self.info@[i + 1].2,
                    ));
                } else {
                    assert(self.stack@[i] == self.stack@.last());
                }
            }
        }
        while self.stack.len() > 0
            invariant
                valid_page_size(self.pages.page_size),
                self.pages == old(self).pages,
                self.tx == old(self).tx,
                self.start == old(self).start,
                self.end == old(self).end,
                self.end == end,
                self.current_leaf == old(self).current_leaf,
                self.current_position == old(self).current_position,
                self.pages.pages@[self.current_leaf as int] is Leaf,
                self.current_position
                    >= self.pages.pages@[self.current_leaf as int]->Leaf_0.keys@.len(),
                self.current_position
                    <= self.pages.pages@[self.current_leaf as int]->Leaf_0.keys@.len(),
                self.pages.wf_subtree(
                    self.current_leaf,
                    0,
                    self.leaf_lo@,
                    self.leaf_hi@,
                    old(self).stack@.len() == 0,
                ),
                self.stack@.len() == self.info@.len(),
                forall|i: int|
                    0 <= i < self.stack@.len() ==> self.pages.wf_subtree(
                        (#[trigger] self.stack@[i]).id,
                        self.info@[i].0,
                        self.info@[i].1,
                        self.info@[i].2,
                        i == 0,
                    ),
                forall|i: int|
                    0 <= i < self.stack@.len() - 1 ==> crate::backtrack::frame_links(
                        *self.pages,
                        #[trigger] self.stack@[i],
                        self.info@[i].0,
                        self.info@[i].1,
                        self.info@[i].2,
                        self.stack@[i + 1].id,
                        self.info@[i + 1].0,
                        self.info@[i + 1].1,
                        self.info@[i + 1].2,
                    ),
                forall|i: int|
                    0 <= i < self.stack@.len() ==> (((#[trigger] self.stack@[i]).pos as int)
                        < self.pages.pages@[self.stack@[i].id as int]->Internal_0.children@.len()),
                forall|i: int|
                    0 <= i < self.stack@.len() ==> (self.pages.pages@[(
                    #[trigger] self.stack@[i]).id as int] is Internal && self.info@[i].0 >= 1
                        && (self.stack@[i].id as int) < self.pages.pages@.len()),
                frames_rem(*self.pages, self.stack@, self.info@) == rv,
                forall|i: int| 0 <= i < rv.len() ==> (#[trigger] rv[i]).0 >= self.start,
                rv == old(self).rem(),
            decreases self.stack@.len(),
        {
            let f = match self.stack.pop() {
                Some(f) => f,
                None => {
                    proof {
                        assert(false);
                    }
                    return None;
                },
            };
            let ghost stack0 = self.stack@;
            let ghost info0 = self.info@.drop_last();
            let ghost fh = self.info@.last().0;
            let ghost flo = self.info@.last().1;
            let ghost fhi = self.info@.last().2;
            proof {
                self.info@ = info0;
            }
            let (has_next, child, clen) = {
                match self.pages.get_page(f.id) {
                    Node::Internal(n) => {
                        if f.pos < n.children.len() - 1 {
                            (true, n.children[f.pos + 1], n.children.len())
                        } else {
                            (false, 0u32, n.children.len())
                        }
                    },
                    Node::Leaf(_) => {
                        proof {
                            assert(false);
                        }
                        return None;
                    },
                }
            };
            let ghost n0 = self.pages.pages@[f.id as int]->Internal_0;
            let ghost hc = (fh - 1) as nat;
            if has_next {
                proof {
                    lemma_kids_entries_split(
                        self.pages.pages@,
                        n0.children@.skip(f.pos as int + 1),
                        1,
                        hc,
                    );
                    assert(n0.children@.skip(f.pos as int + 1).take(1) =~= seq![
                        n0.children@[f.pos as int + 1],
                    ]);
                    assert(n0.children@.skip(f.pos as int + 1).skip(1) =~= n0.children@.skip(
                        f.pos as int + 2,
                    ));
                    lemma_kids_entries_one(
                        self.pages.pages@,
                        n0.children@[f.pos as int + 1],
                        hc,
                    );
                }
                self.stack.push(Frame { id: f.id, pos: f.pos + 1 });
                proof {
                    self.info@ = info0.push((fh, flo, fhi));
                    assert(self.stack@.drop_last() =~= stack0);
                    assert(self.info@.drop_last() =~= info0);
                    assert(subtree_entries(self.pages.pages@, child, hc) + frames_rem(
                        *self.pages,
                        self.stack@,
                        self.info@,
                    ) =~= rv);
                    assert forall|i: int|
                        0 <= i < self.stack@.len() - 1 implies crate::backtrack::frame_links(
                        *self.pages,
                        #[trigger] self.stack@[i],
                        self.info@[i].0,
                        self.info@[i].1,
                        self.info@[i].2,
                        self.stack@[i + 1].id,
                        self.info@[i + 1].0,
                        self.info@[i + 1].1,
                        self.info@[i + 1].2,
                    ) by {
                        if i < self.stack@.len() - 2 {
                            assert(self.stack@[i] == stack0[i]);
                        }
                    }
                }
                let ghost pre_stack = self.stack@;
                let ghost pre_info = self.info@;
                self.descend_leftmost(
                    child,
                    Ghost(hc),
                    Ghost(child_lo(n0.keys@, flo, f.pos as int + 1)),
                    Ghost(child_hi(n0.keys@, fhi, f.pos as int + 1)),
                );
                proof {
                    assert(self.rem() == rv);
                    assert forall|i: int|
                        0 <= i < self.rem().len() implies (#[trigger] self.rem()[i]).0
                        >= self.start by {
                        assert(self.rem()[i] == rv[i]);
                    }
                }
                let (k0, v0) = {
                    match self.pages.get_page(self.current_leaf) {
                        Node::Leaf(l) => {
                            if l.keys.len() > 0 {
                                (l.keys[0], l.values[0])
                            } else {
                                proof {
                                    assert(false);
                                }
                                return None;
                            }
                        },
                        Node::Internal(_) => {
                            proof {
                                assert(false);
                            }
                            return None;
                        },
                    }
                };
                let ghost l2 = self.pages.pages@[self.current_leaf as int]->Leaf_0;
                proof {
                    assert(entry_seq(l2).skip(0) =~= entry_seq(l2));
                    assert(rv[0] == entry_seq(l2)[0]);
                    assert(rv[0] == (k0, v0));
                }
                if k0 < end {
                    self.current_position = 1;
                    proof {
                        assert(entry_seq(l2).skip(1) =~= entry_seq(l2).skip(0).skip(1));
                        assert(self.rem() =~= rv.skip(1));
                        assert forall|i: int|
                            0 <= i < self.rem().len() implies (#[trigger] self.rem()[i]).0
                            >= self.start by {
                            assert(self.rem()[i] == rv[i + 1]);
                        }
                    }
                    return Some(v0);
                } else {
                    return None;
                }
            }
            proof {
                assert((f.pos as int) == n0.children@.len() - 1);
                assert(n0.children@.skip(f.pos as int + 1) =~= Seq::<PageId>::empty());
                assert(kids_entries(self.pages.pages@, n0.children@.skip(f.pos as int + 1), hc)
                    =~= Seq::<(u64, u64)>::empty());
                assert(frames_rem(*self.pages, stack0, info0) == rv);
            }
        }
        proof {
            assert(rv =~= Seq::<(u64, u64)>::empty());
            assert(self.pages.wf_subtree(
                self.current_leaf,
                0,
                self.leaf_lo@,
                self.leaf_hi@,
                true,
            ));
        }
        None
    }
    /// Law: a range whose start is at or past its end can yield nothing,
    /// since every remaining key is at least the start.
    pub proof fn lemma_range_empty(self)
        requires
            self.wf_iter(),
            self.start >= self.end,
        ensures
            self.rem().len() == 0 || self.rem()[0].0 >= self.end,
    {
        if self.rem().len() > 0 {
            assert(self.rem()[0].0 >= self.start);
        }
    }
}

} // verus!
