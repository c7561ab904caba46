//! The B+tree facade: a persistent, copy-on-write index from fixed-size
//! keys to fixed-size values. A mutating operation descends from the
//! published root with a backtrack stack, rewrites the path onto fresh
//! pages, and publishes the new root through the transaction manager; the
//! superseded pages await reclamation until the next checkpoint.

use vstd::prelude::*;

use crate::backtrack::{lemma_path_localizes, path_ok, DeleteBacktrack, Frame, InsertBacktrack};
use crate::internal::{
    clone_internal, internal_delete_key_children, internal_insert, internal_merge,
    internal_take_from_left, internal_take_from_right, min_internal_cap, InternalDeleteStatus,
    InternalInsertStatus,
};
use crate::leaf::{
    clone_leaf, leaf_delete, leaf_insert, leaf_merge, leaf_take_from_left, leaf_take_from_right,
    min_leaf_cap, rebalance_decision, LeafDeleteStatus, LeafInsertStatus, RebalanceResult,
};
use crate::metadata::{Metadata, StaticSettings};
use crate::node::{
    child_hi, child_lo, children_spliced, del_rel, entries_in_range, entry_seq, ins_rel, key_ub,
    keys_spliced,
    kids_entries, kids_wf, kv_has, lemma_del_rel_frame, lemma_internal_first_key_gap,
    lemma_internal_halves, lemma_kids_borrow_del, lemma_kids_entries_one,
    lemma_kids_entries_split, lemma_kids_merge_del, lemma_kids_replace, lemma_kids_replace_del,
    lemma_kids_split_insert, lemma_kids_stable_full, lemma_merge_kids, lemma_rotate_left_kids,
    lemma_rotate_right_kids, lemma_subtree_prefix_stable, lemma_wf_entries, subtree_entries,
    subtree_wf, InternalNode, LeafNode, Node,
};
use crate::pages::{valid_page_size, PageStore};
use crate::version_management::{ReadTransaction, TransactionManager, WriteTransaction};
use crate::{BTreeStoreError, PageId};

verus! {

/// What an unwind step hands its parent: either the page id that replaces
/// the child, or the two halves of a split child with the key to promote.
pub enum Propagation {
    Replaced(PageId),
    Splitted(PageId, u64, PageId),
}

/// `p` extends `s0`: same page size, and every page of `s0` unchanged.
/// Appending fresh pages preserves every subtree that `s0` held.
pub open spec fn store_extends(p: PageStore, s0: PageStore) -> bool {
    &&& p.page_size == s0.page_size
    &&& s0.pages@.len() <= p.pages@.len()
    &&& forall|i: int| 0 <= i < s0.pages@.len() ==> p.pages@[i] == s0.pages@[i]
}

/// The propagation state is sound for a subtree that held `e0` over
/// `[lo, hi)` at height `h`: the replacement tree (or pair of siblings) is
/// well-formed and holds exactly `e0` plus `(key, value)`.
pub open spec fn prop_ok(
    p: PageStore,
    e0: Seq<(u64, u64)>,
    h: nat,
    lo: int,
    hi: int,
    is_root: bool,
    state: Propagation,
    key: u64,
    value: u64,
) -> bool {
    match state {
        Propagation::Replaced(nid) => {
            &&& p.wf_subtree(nid, h, lo, hi, is_root)
            &&& ins_rel(e0, subtree_entries(p.pages@, nid, h), key, value)
        },
        Propagation::Splitted(lid, sk, rid) => {
            &&& p.wf_subtree(lid, h, lo, sk as int, false)
            &&& p.wf_subtree(rid, h, sk as int, hi, false)
            &&& lo < sk as int
            &&& (sk as int) < hi
            &&& ins_rel(
                e0,
                subtree_entries(p.pages@, lid, h) + subtree_entries(p.pages@, rid, h),
                key,
                value,
            )
        },
    }
}

/// What a delete unwind step hands its parent: the page id that replaces
/// the child, or an underfull node still to be repaired through the parent.
/// An underfull node travels by value: it is only written to a page once a
/// rebalance has restored its occupancy, or once it is accepted as root.
pub enum DelState {
    Replaced(PageId),
    UnderfullLeaf(LeafNode),
    UnderfullInternal(InternalNode),
}

/// The delete propagation state is sound for a subtree that held `e0` over
/// `[lo, hi)` at height `h`: the replacement (or carried underfull node)
/// holds exactly `e0` minus the entry keyed `k`.
pub open spec fn del_prop_ok(
    p: PageStore,
    e0: Seq<(u64, u64)>,
    h: nat,
    lo: int,
    hi: int,
    is_root: bool,
    state: DelState,
    k: u64,
) -> bool {
    match state {
        DelState::Replaced(nid) => {
            &&& p.wf_subtree(nid, h, lo, hi, is_root)
            &&& del_rel(e0, subtree_entries(p.pages@, nid, h), k)
        },
        DelState::UnderfullLeaf(nd) => {
            &&& h == 0
            &&& nd.values@.len() == nd.keys@.len()
            &&& (if is_root {
                nd.keys@.len() < crate::node::min_leaf(p.leaf_cap())
            } else {
                nd.keys@.len() == crate::node::min_leaf(p.leaf_cap()) - 1
            })
            &&& crate::node::strict_sorted(nd.keys@)
            &&& crate::node::keys_in_range(nd.keys@, lo, hi)
            &&& del_rel(e0, entry_seq(nd), k)
        },
        DelState::UnderfullInternal(nd) => {
            &&& h >= 1
            &&& nd.children@.len() == nd.keys@.len() + 1
            &&& (if is_root {
                nd.keys@.len() < crate::node::min_internal(p.internal_cap())
            } else {
                nd.keys@.len() == crate::node::min_internal(p.internal_cap()) - 1
            })
            &&& crate::node::strict_sorted(nd.keys@)
            &&& crate::node::keys_in_range(nd.keys@, lo, hi)
            &&& kids_wf(
                p.pages@,
                p.leaf_cap(),
                p.internal_cap(),
                nd.keys@,
                nd.children@,
                (h - 1) as nat,
                lo,
                hi,
            )
            &&& del_rel(e0, kids_entries(p.pages@, nd.children@, (h - 1) as nat), k)
        },
    }
}

pub struct BTree {
    pub metadata: Metadata,
    pub static_settings: StaticSettings,
    pub pages: PageStore,
    pub transaction_manager: TransactionManager,
    pub durable_height: Ghost<nat>,
}

impl BTree {
    /// The tree's standing invariant: the published root and the durable
    /// root both head well-formed trees over the full key space, and the
    /// watermark matches the arena.
    pub open spec fn wf(self) -> bool {
        &&& valid_page_size(self.static_settings.page_size)
        &&& self.pages.page_size == self.static_settings.page_size
        &&& self.pages.wf_subtree(
            self.transaction_manager.current_root,
            self.transaction_manager.height@,
            0,
            key_ub(),
            true,
        )
        &&& self.pages.wf_subtree(self.metadata.root, self.durable_height@, 0, key_ub(), true)
        &&& self.metadata.page_manager.next_page as int == self.pages.pages@.len()
        &&& self.pages.pages@.len() >= 2
        &&& self.transaction_manager.height@ < self.pages.pages@.len()
        &&& self.durable_height@ < self.pages.pages@.len()
        &&& crate::storage::pages_fit(self.pages)
        &&& self.metadata.page_manager.free@.len() <= u32::MAX
    }

    /// The entries the published root currently holds, in key order.
    pub open spec fn entries(self) -> Seq<(u64, u64)> {
        self.pages.entries_of(
            self.transaction_manager.current_root,
            self.transaction_manager.height@,
        )
    }

    /// The entries the durable (checkpointed) root holds.
    pub open spec fn durable_entries(self) -> Seq<(u64, u64)> {
        self.pages.entries_of(self.metadata.root, self.durable_height@)
    }

    /// Create an empty tree: a single empty leaf is its root. The settings
    /// are fixed for the tree's whole life.
    pub fn new(page_size: u16, key_buffer_size: u32) -> (r: Result<BTree, BTreeStoreError>)
        ensures
            match r {
                Ok(t) => {
                    &&& t.wf()
                    &&& valid_page_size(page_size)
                    &&& t.static_settings.page_size == page_size
                    &&& t.static_settings.key_buffer_size == key_buffer_size
                    &&& t.metadata.root == 1
                    &&& t.transaction_manager.current_root == 1
                    &&& t.transaction_manager.height@ == 0
                    &&& t.pages.pages@.len() == 2
                    &&& t.entries() =~= Seq::<(u64, u64)>::empty()
                    &&& t.durable_entries() =~= Seq::<(u64, u64)>::empty()
                },
                Err(e) => e == BTreeStoreError::InvariantViolation && !valid_page_size(page_size),
            },
    {
        if page_size < 40 {
            return Err(BTreeStoreError::InvariantViolation);
        }
        let mut pages = PageStore::new(page_size);
        let root = pages.append_page(
            Node::Leaf(crate::node::LeafNode { keys: Vec::new(), values: Vec::new() }),
        );
        let mut metadata = Metadata::new();
        metadata.set_root(root);
        let transaction_manager = TransactionManager::new(root, Ghost(0));
        let static_settings = StaticSettings { page_size, key_buffer_size };
        let t = BTree {
            metadata,
            static_settings,
            pages,
            transaction_manager,
            durable_height: Ghost(0),
        };
        proof {
            assert(t.pages.wf_subtree(1, 0, 0, key_ub(), true));
            assert forall|i: int|
                0 <= i < t.pages.pages@.len() implies crate::storage::node_fits(
                #[trigger] t.pages.pages@[i],
                t.pages.page_size as int,
            ) by {}
        }
        Ok(t)
    }

    /// Leaf step of an insert: attempt the insert in the leaf the descent
    /// reached, writing the result onto one fresh page, or two on a split.
    pub fn insert_in_leaf(
        pages: &mut PageStore,
        tx: &mut WriteTransaction,
        f: Frame,
        key: u64,
        value: u64,
        Ghost(lo): Ghost<int>,
        Ghost(hi): Ghost<int>,
        Ghost(is_root): Ghost<bool>,
    ) -> (r: Result<Propagation, BTreeStoreError>)
        requires
            valid_page_size(old(pages).page_size),
            crate::storage::pages_fit(*old(pages)),
            old(pages).wf_subtree(f.id, 0, lo, hi, is_root),
            lo <= key as int,
            (key as int) < hi,
            old(pages).pages@.len() + 2 <= u32::MAX,
        ensures
            store_extends(*final(pages), *old(pages)),
            crate::storage::pages_fit(*final(pages)),
            final(pages).pages@.len() <= old(pages).pages@.len() + 2,
            final(tx).root == old(tx).root,
            final(tx).version == old(tx).version,
            final(tx).height@ == old(tx).height@,
            match r {
                Ok(state) => {
                    &&& !kv_has(subtree_entries(old(pages).pages@, f.id, 0), key)
                    &&& prop_ok(
                        *final(pages),
                        subtree_entries(old(pages).pages@, f.id, 0),
                        0,
                        lo,
                        hi,
                        is_root,
                        state,
                        key,
                        value,
                    )
                    // the leaf splits exactly when it was full, and the
                    // split key is the first key of the right sibling
                    &&& (state is Replaced ==> old(pages).pages@[f.id as int]->Leaf_0.keys@.len()
                        < old(pages).leaf_cap())
                    &&& (state is Splitted ==> {
                        &&& old(pages).pages@[f.id as int]->Leaf_0.keys@.len() == old(
                            pages,
                        ).leaf_cap()
                        &&& final(pages).pages@[state->Splitted_2 as int] is Leaf
                        &&& final(pages).pages@[state->Splitted_2 as int]->Leaf_0.keys@.len() >= 1
                        &&& final(pages).pages@[state->Splitted_2 as int]->Leaf_0.keys@[0]
                            == state->Splitted_1
                    })
                },
                Err(e) => {
                    &&& e == BTreeStoreError::DuplicatedKey
                    &&& *final(pages) == *old(pages)
                    &&& *final(tx) == *old(tx)
                    &&& kv_has(subtree_entries(old(pages).pages@, f.id, 0), key)
                },
            },
    {
        let lcap = pages.leaf_capacity();
        let status = match pages.get_page(f.id) {
            Node::Leaf(l) => leaf_insert(l, key, value, lcap),
            Node::Internal(_) => {
                proof {
                    assert(false);
                }
                return Err(BTreeStoreError::DuplicatedKey);
            },
        };
        let ghost l0 = old(pages).pages@[f.id as int]->Leaf_0;
        let ghost e0 = subtree_entries(old(pages).pages@, f.id, 0);
        match status {
            LeafInsertStatus::DuplicatedKey => Err(BTreeStoreError::DuplicatedKey),
            LeafInsertStatus::Inserted(nl) => {
                let ghost nlg = nl;
                let nid = InsertBacktrack::add_new_node(pages, Node::Leaf(nl));
                tx.freed.push(f.id);
                proof {
                    let p1 = pages.pages@;
                    assert(p1[nid as int] == Node::Leaf(nlg));
                    assert(subtree_entries(p1, nid, 0) == entry_seq(nlg));
                    assert forall|i: int| 0 <= i < nlg.keys@.len() implies lo <= #[trigger] nlg.keys@[i]
                        && (nlg.keys@[i] as int) < hi by {
                        if nlg.keys@[i] != key {
                            assert(l0.keys@.contains(nlg.keys@[i]));
                            let w = choose|w: int| 0 <= w < l0.keys@.len() && l0.keys@[w] == nlg.keys@[i];
                            assert(lo <= l0.keys@[w] < hi);
                        }
                    }
                    assert(pages.wf_subtree(nid, 0, lo, hi, is_root));
                }
                Ok(Propagation::Replaced(nid))
            },
            LeafInsertStatus::Split(sk, nl, nr) => {
                let ghost nlg = nl;
                let ghost nrg = nr;
                let lid = InsertBacktrack::add_new_node(pages, Node::Leaf(nl));
                let rid = InsertBacktrack::add_new_node(pages, Node::Leaf(nr));
                tx.freed.push(f.id);
                proof {
                    let p2 = pages.pages@;
                    assert(p2[lid as int] == Node::Leaf(nlg));
                    assert(p2[rid as int] == Node::Leaf(nrg));
                    assert(subtree_entries(p2, lid, 0) == entry_seq(nlg));
                    assert(subtree_entries(p2, rid, 0) == entry_seq(nrg));
                    assert forall|i: int| 0 <= i < nlg.keys@.len() implies lo <= #[trigger] nlg.keys@[i]
                        && (nlg.keys@[i] as int) < hi by {
                        if nlg.keys@[i] != key {
                            assert(l0.keys@.contains(nlg.keys@[i]));
                            let w = choose|w: int| 0 <= w < l0.keys@.len() && l0.keys@[w] == nlg.keys@[i];
                            assert(lo <= l0.keys@[w] < hi);
                        }
                    }
                    assert forall|i: int| 0 <= i < nrg.keys@.len() implies lo <= #[trigger] nrg.keys@[i]
                        && (nrg.keys@[i] as int) < hi by {
                        if nrg.keys@[i] != key {
                            assert(l0.keys@.contains(nrg.keys@[i]));
                            let w = choose|w: int| 0 <= w < l0.keys@.len() && l0.keys@[w] == nrg.keys@[i];
                            assert(lo <= l0.keys@[w] < hi);
                        }
                    }
                    assert(nlg.keys@.len() >= 1);
                    assert(lo <= nlg.keys@[0]);
                    assert(nlg.keys@[0] < sk);
                    assert(pages.wf_subtree(lid, 0, lo, sk as int, false));
                    assert(pages.wf_subtree(rid, 0, sk as int, hi, false));
                }
                Ok(Propagation::Splitted(lid, sk, rid))
            },
        }
    }

    /// A fresh root for when the old root split: one routing key and the
    /// two halves as its children.
    pub fn create_internal_node(left_child: PageId, right_child: PageId, key: u64) -> (n: Node)
        ensures
            n is Internal,
            n->Internal_0.keys@ =~= seq![key],
            n->Internal_0.children@ =~= seq![left_child, right_child],
    {
        let mut keys: Vec<u64> = Vec::new();
        let mut children: Vec<PageId> = Vec::new();
        keys.push(key);
        children.push(left_child);
        children.push(right_child);
        Node::Internal(InternalNode { keys, children })
    }

    /// Unwind the backtrack stack: rebuild each parent on a fresh page with
    /// its child pointer rebound, splitting parents as needed; when the
    /// stack empties while still splitting, create a new root.
    #[verifier::rlimit(100)]
    #[verifier::spinoff_prover]
    pub fn insert_in_internals(
        pages: &mut PageStore,
        tx: &mut WriteTransaction,
        backtrack: InsertBacktrack,
        state: Propagation,
        key: u64,
        value: u64,
        Ghost(s0): Ghost<PageStore>,
        Ghost(fframes): Ghost<Seq<Frame>>,
        Ghost(finfo): Ghost<Seq<(nat, int, int)>>,
    ) -> (r: Result<(), BTreeStoreError>)
        requires
            valid_page_size(s0.page_size),
            path_ok(s0, fframes, finfo, old(tx).root, old(tx).height@, key),
            store_extends(*old(pages), s0),
            crate::storage::pages_fit(*old(pages)),
            backtrack.frames@ == fframes.take(backtrack.frames@.len() as int),
            backtrack.frames@.len() == fframes.len() - 1,
            old(pages).pages@.len() + 2 * backtrack.frames@.len() + 1 <= u32::MAX,
            prop_ok(
                *old(pages),
                subtree_entries(
                    s0.pages@,
                    fframes[backtrack.frames@.len() as int].id,
                    finfo[backtrack.frames@.len() as int].0,
                ),
                finfo[backtrack.frames@.len() as int].0,
                finfo[backtrack.frames@.len() as int].1,
                finfo[backtrack.frames@.len() as int].2,
                backtrack.frames@.len() == 0,
                state,
                key,
                value,
            ),
        ensures
            store_extends(*final(pages), *old(pages)),
            crate::storage::pages_fit(*final(pages)),
            store_extends(*final(pages), s0),
            match r {
                Ok(()) => {
                    &&& final(pages).pages@.len() <= u32::MAX
                    &&& final(pages).pages@.len() <= old(pages).pages@.len() + 2 * (fframes.len()
                        - 1) + 1
                    &&& final(pages).wf_subtree(final(tx).root, final(tx).height@, 0, key_ub(), true)
                    &&& ins_rel(
                        subtree_entries(s0.pages@, old(tx).root, old(tx).height@),
                        subtree_entries(final(pages).pages@, final(tx).root, final(tx).height@),
                        key,
                        value,
                    )
                    &&& (final(tx).height@ == old(tx).height@ || final(tx).height@ == old(tx).height@ + 1)
                    &&& (final(tx).height@ == old(tx).height@ + 1 ==> final(pages).pages@[final(tx).root as int] is Internal && final(pages).pages@[final(tx).root as int]->Internal_0.children@.len() == 2)
                    &&& (final(tx).height@ == old(tx).height@ + 1 ==> final(pages).pages@.len()
                        > old(pages).pages@.len())
                    &&& (backtrack.frames@.len() == 0 && state is Splitted ==> {
                        &&& final(tx).height@ == old(tx).height@ + 1
                        &&& final(pages).pages@[final(tx).root as int]->Internal_0.keys@[0]
                            == state->Splitted_1
                        &&& final(pages).pages@[final(tx).root as int]->Internal_0.children@[1]
                            == state->Splitted_2
                    })
                    &&& (backtrack.frames@.len() == 0 && state is Replaced ==> final(tx).height@
                        == old(tx).height@)
                    &&& final(tx).version == old(tx).version
                },
                Err(_) => false,
            },
    {
        let ghost root0 = tx.root;
        let ghost h0 = tx.height@;
        let ghost cl = s0.leaf_cap();
        let ghost ci = s0.internal_cap();
        let ghost state0 = state;
        let mut backtrack = backtrack;
        let mut state = state;
        let icap = pages.internal_capacity();
        while backtrack.frames.len() > 0
            invariant
                valid_page_size(s0.page_size),
                cl == s0.leaf_cap(),
                ci == s0.internal_cap(),
                icap as int == ci,
                fframes.len() == 1 ==> state == state0,
                path_ok(s0, fframes, finfo, root0, h0, key),
                store_extends(*pages, s0),
                store_extends(*pages, *old(pages)),
                crate::storage::pages_fit(*pages),
                backtrack.frames@ == fframes.take(backtrack.frames@.len() as int),
                backtrack.frames@.len() <= fframes.len() - 1,
                pages.pages@.len() + 2 * backtrack.frames@.len() + 1 <= u32::MAX,
                pages.pages@.len() + 2 * backtrack.frames@.len() <= old(pages).pages@.len() + 2 * (
                fframes.len() - 1),
                prop_ok(
                    *pages,
                    subtree_entries(
                        s0.pages@,
                        fframes[backtrack.frames@.len() as int].id,
                        finfo[backtrack.frames@.len() as int].0,
                    ),
                    finfo[backtrack.frames@.len() as int].0,
                    finfo[backtrack.frames@.len() as int].1,
                    finfo[backtrack.frames@.len() as int].2,
                    backtrack.frames@.len() == 0,
                    state,
                    key,
                    value,
                ),
                tx.root == root0,
                tx.height@ == h0,
                tx.version == old(tx).version,
                root0 == old(tx).root,
                h0 == old(tx).height@,
            decreases backtrack.frames@.len(),
        {
            let ghost j = backtrack.frames@.len() as int;
            let f = match backtrack.frames.pop() {
                Some(f) => f,
                None => {
                    proof {
                        assert(false);
                    }
                    return Err(BTreeStoreError::InvariantViolation);
                },
            };
            proof {
                assert(fframes.take(j).drop_last() =~= fframes.take(j - 1));
                assert(f == fframes[j - 1]);
            }
            let ghost jj = j - 1;
            let ghost ph = finfo[jj].0;
            let ghost plo = finfo[jj].1;
            let ghost phi = finfo[jj].2;
            let ghost hc = (ph - 1) as nat;
            let ghost pk = s0.pages@[f.id as int]->Internal_0.keys@;
            let ghost pc = s0.pages@[f.id as int]->Internal_0.children@;
            let ghost p1 = pages.pages@;
            proof {
                assert(s0.pages@[f.id as int] is Internal);
                assert(pages.pages@[f.id as int] == s0.pages@[f.id as int]);
                assert(subtree_wf(s0.pages@, cl, ci, f.id, ph, plo, phi, jj == 0));
                assert(kids_wf(s0.pages@, cl, ci, pk, pc, hc, plo, phi));
                assert(finfo[j].0 == hc);
                assert(finfo[j].1 == child_lo(pk, plo, f.pos as int));
                assert(finfo[j].2 == child_hi(pk, phi, f.pos as int));
            }
            match state {
                Propagation::Replaced(nid) => {
                    let nn = {
                        let n = match pages.get_page(f.id) {
                            Node::Internal(n) => n,
                            Node::Leaf(_) => {
                                proof {
                                    assert(false);
                                }
                                return Err(BTreeStoreError::InvariantViolation);
                            },
                        };
                        let nk = crate::arrayview::array_take(&n.keys, n.keys.len());
                        let nc = crate::arrayview::array_set(&n.children, f.pos, nid);
                        proof {
                            assert(nk@ =~= pk);
                            lemma_kids_replace(
                                s0.pages@, p1, cl, ci, pk, pc, f.pos as int, nid, hc, plo, phi,
                                key, value,
                            );
                        }
                        InternalNode { keys: nk, children: nc }
                    };
                    let ghost nng = nn;
                    let new_id = InsertBacktrack::add_new_node(pages, Node::Internal(nn));
                    tx.freed.push(f.id);
                    proof {
                        let p2 = pages.pages@;
                        assert(p2[new_id as int] == Node::Internal(nng));
                        lemma_kids_stable_full(
                            p1, p2, cl, ci, nng.keys@, nng.children@, hc, plo, phi,
                        );
                        assert(subtree_wf(p2, cl, ci, new_id, ph, plo, phi, jj == 0));
                        assert(subtree_entries(p2, new_id, ph) == kids_entries(
                            p2,
                            nng.children@,
                            hc,
                        ));
                        assert(subtree_entries(s0.pages@, f.id, ph) == kids_entries(
                            s0.pages@,
                            pc,
                            hc,
                        ));
                    }
                    state = Propagation::Replaced(new_id);
                },
                Propagation::Splitted(lid, sk, rid) => {
                    let st = {
                        let n = match pages.get_page(f.id) {
                            Node::Internal(n) => n,
                            Node::Leaf(_) => {
                                proof {
                                    assert(false);
                                }
                                return Err(BTreeStoreError::InvariantViolation);
                            },
                        };
                        proof {
                            lemma_kids_split_insert(
                                s0.pages@, p1, cl, ci, pk, pc, f.pos as int, lid, sk, rid, hc,
                                plo, phi, key, value,
                            );
                        }
                        internal_insert(n, f.pos, lid, sk, rid, icap)
                    };
                    let ghost tk = keys_spliced(pk, f.pos as int, sk);
                    let ghost tc = children_spliced(pc, f.pos as int, lid, rid);
                    match st {
                        InternalInsertStatus::Inserted(nn) => {
                            let ghost nng = nn;
                            let new_id = InsertBacktrack::add_new_node(pages, Node::Internal(nn));
                            tx.freed.push(f.id);
                            proof {
                                let p2 = pages.pages@;
                                assert(p2[new_id as int] == Node::Internal(nng));
                                lemma_kids_stable_full(p1, p2, cl, ci, tk, tc, hc, plo, phi);
                                assert(subtree_wf(p2, cl, ci, new_id, ph, plo, phi, jj == 0));
                                assert(subtree_entries(p2, new_id, ph) == kids_entries(p2, tc, hc));
                                assert(subtree_entries(s0.pages@, f.id, ph) == kids_entries(
                                    s0.pages@,
                                    pc,
                                    hc,
                                ));
                            }
                            state = Propagation::Replaced(new_id);
                        },
                        InternalInsertStatus::Split(psk, nl, nr) => {
                            let ghost m = (ci + 1) / 2;
                            proof {
                                lemma_internal_halves(p1, cl, ci, tk, tc, m, hc, plo, phi);
                            }
                            let ghost nlg = nl;
                            let ghost nrg = nr;
                            let lid2 = InsertBacktrack::add_new_node(pages, Node::Internal(nl));
                            let rid2 = InsertBacktrack::add_new_node(pages, Node::Internal(nr));
                            tx.freed.push(f.id);
                            proof {
                                let p3 = pages.pages@;
                                assert(p3[lid2 as int] == Node::Internal(nlg));
                                assert(p3[rid2 as int] == Node::Internal(nrg));
                                lemma_kids_stable_full(
                                    p1, p3, cl, ci, nlg.keys@, nlg.children@, hc, plo, psk as int,
                                );
                                lemma_kids_stable_full(
                                    p1, p3, cl, ci, nrg.keys@, nrg.children@, hc, psk as int, phi,
                                );
                                assert(subtree_wf(p3, cl, ci, lid2, ph, plo, psk as int, false));
                                assert(subtree_wf(p3, cl, ci, rid2, ph, psk as int, phi, false));
                                assert(subtree_entries(p3, lid2, ph) == kids_entries(
                                    p3,
                                    nlg.children@,
                                    hc,
                                ));
                                assert(subtree_entries(p3, rid2, ph) == kids_entries(
                                    p3,
                                    nrg.children@,
                                    hc,
                                ));
                                assert(subtree_entries(s0.pages@, f.id, ph) == kids_entries(
                                    s0.pages@,
                                    pc,
                                    hc,
                                ));
                                assert(kids_entries(p3, nlg.children@, hc) + kids_entries(
                                    p3,
                                    nrg.children@,
                                    hc,
                                ) == kids_entries(p1, tc, hc));
                            }
                            state = Propagation::Splitted(lid2, psk, rid2);
                        },
                    }
                },
            }
        }
        // the stack is empty: the state describes the root level
        proof {
            assert(fframes.take(0) =~= Seq::<Frame>::empty());
            assert(fframes[0].id == root0);
        }
        match state {
            Propagation::Replaced(nid) => {
                InsertBacktrack::new_root(tx, nid, Ghost(h0));
                Ok(())
            },
            Propagation::Splitted(lid, sk, rid) => {
                let ghost p1 = pages.pages@;
                let node = Self::create_internal_node(lid, rid, sk);
                let ghost ng = node;
                let nid = InsertBacktrack::add_new_node(pages, node);
                InsertBacktrack::new_root(tx, nid, Ghost((h0 + 1) as nat));
                proof {
                    let p2 = pages.pages@;
                    assert(p2[nid as int] == ng);
                    let kseq = ng->Internal_0.keys@;
                    let cseq = ng->Internal_0.children@;
                    assert(subtree_wf(p1, cl, ci, lid, h0, 0, sk as int, false));
                    assert(subtree_wf(p1, cl, ci, rid, h0, sk as int, key_ub(), false));
                    lemma_subtree_prefix_stable(p1, p2, cl, ci, lid, h0, 0, sk as int, false);
                    lemma_subtree_prefix_stable(p1, p2, cl, ci, rid, h0, sk as int, key_ub(), false);
                    assert(kseq =~= seq![sk]);
                    assert(cseq =~= seq![lid, rid]);
                    assert forall|i: int| 0 <= i < cseq.len() implies subtree_wf(
                        p2,
                        cl,
                        ci,
                        #[trigger] cseq[i],
                        h0,
                        child_lo(kseq, 0, i),
                        child_hi(kseq, key_ub(), i),
                        false,
                    ) by {
                        if i == 0 {
                            assert(cseq[0] == lid);
                            assert(child_lo(kseq, 0, 0) == 0);
                            assert(child_hi(kseq, key_ub(), 0) == sk as int);
                        } else {
                            assert(cseq[1] == rid);
                            assert(child_lo(kseq, 0, 1) == sk as int);
                            assert(child_hi(kseq, key_ub(), 1) == key_ub());
                        }
                    }
                    assert(subtree_wf(p2, cl, ci, nid, (h0 + 1) as nat, 0, key_ub(), true));
                    lemma_kids_entries_split(p2, cseq, 1, h0);
                    assert(cseq.take(1) =~= seq![lid]);
                    assert(cseq.skip(1) =~= seq![rid]);
                    lemma_kids_entries_one(p2, lid, h0);
                    lemma_kids_entries_one(p2, rid, h0);
                    assert(subtree_entries(p2, nid, (h0 + 1) as nat) == subtree_entries(p2, lid, h0)
                        + subtree_entries(p2, rid, h0));
                    lemma_subtree_prefix_stable(p1, p2, cl, ci, lid, h0, 0, sk as int, false);
                    assert(ng->Internal_0.keys@[0] == sk);
                    assert(ng->Internal_0.children@[1] == rid);
                }
                Ok(())
            },
        }
    }

    /// Insert within a write transaction: build the backtrack, mutate the
    /// leaf, and unwind. The tree the transaction roots afterwards holds
    /// exactly the old entries plus `(key, value)`; a present key is
    /// refused without any change.
    pub fn insert(pages: &mut PageStore, tx: &mut WriteTransaction, key: u64, value: u64) -> (r:
        Result<(), BTreeStoreError>)
        requires
            valid_page_size(old(pages).page_size),
            crate::storage::pages_fit(*old(pages)),
            old(pages).wf_subtree(old(tx).root, old(tx).height@, 0, key_ub(), true),
        ensures
            store_extends(*final(pages), *old(pages)),
            crate::storage::pages_fit(*final(pages)),
            final(tx).version == old(tx).version,
            match r {
                Ok(()) => {
                    &&& final(pages).pages@.len() <= u32::MAX
                    &&& final(pages).pages@.len() <= old(pages).pages@.len() + 2 * (old(
                    tx).height@ + 1) + 3
                    &&& final(pages).wf_subtree(final(tx).root, final(tx).height@, 0, key_ub(), true)
                    &&& !kv_has(
                        subtree_entries(old(pages).pages@, old(tx).root, old(tx).height@),
                        key,
                    )
                    &&& ins_rel(
                        subtree_entries(old(pages).pages@, old(tx).root, old(tx).height@),
                        subtree_entries(final(pages).pages@, final(tx).root, final(tx).height@),
                        key,
                        value,
                    )
                    &&& (final(tx).height@ == old(tx).height@ || final(tx).height@ == old(tx).height@ + 1)
                    &&& (final(tx).height@ == old(tx).height@ + 1 ==> final(pages).pages@[final(tx).root as int] is Internal && final(pages).pages@[final(tx).root as int]->Internal_0.children@.len() == 2)
                    &&& (final(tx).height@ == old(tx).height@ + 1 ==> final(pages).pages@.len()
                        > old(pages).pages@.len())
                    // a split of a root leaf promotes the split key, which
                    // is the first key of the new right sibling
                    &&& (final(tx).height@ == old(tx).height@ + 1 && old(tx).height@ == 0 ==> {
                        let rn = final(pages).pages@[final(tx).root as int]->Internal_0;
                        &&& rn.keys@.len() == 1
                        &&& final(pages).pages@[rn.children@[1] as int] is Leaf
                        &&& final(pages).pages@[rn.children@[1] as int]->Leaf_0.keys@.len() >= 1
                        &&& rn.keys@[0] == final(pages).pages@[rn.children@[1] as int]->Leaf_0.keys@[0]
                    })
                },
                Err(e) => {
                    &&& *final(pages) == *old(pages)
                    &&& *final(tx) == *old(tx)
                    &&& (e == BTreeStoreError::DuplicatedKey || e
                        == BTreeStoreError::PageOutOfBounds)
                    &&& (e == BTreeStoreError::DuplicatedKey <==> kv_has(
                        subtree_entries(old(pages).pages@, old(tx).root, old(tx).height@),
                        key,
                    ))
                    &&& (e == BTreeStoreError::PageOutOfBounds ==> old(pages).pages@.len() + 2 * (
                    old(tx).height@ + 1) + 3 > u32::MAX)
                },
            },
    {
        let ghost s0 = *pages;
        let root = tx.root;
        let mut backtrack = InsertBacktrack::new_search_for(pages, root, Ghost(tx.height@), key);
        let ghost fframes = backtrack.frames@;
        let ghost finfo = backtrack.info@;
        let flen = backtrack.frames.len();
        let f = match backtrack.frames.pop() {
            Some(f) => f,
            None => {
                proof {
                    assert(false);
                }
                return Err(BTreeStoreError::PageOutOfBounds);
            },
        };
        let ghost ll = fframes.len() - 1;
        proof {
            assert(f == fframes[ll]);
            assert(backtrack.frames@ =~= fframes.take(ll as int));
            lemma_path_localizes(s0, fframes, finfo, root, tx.height@, key, 0);
        }
        // a present key is refused before anything else, so the duplicate
        // error is exact: it comes for a present key and for nothing else
        let present = match pages.get_page(f.id) {
            Node::Leaf(l) => {
                match crate::node::binary_search_keys(&l.keys, key) {
                    Ok(i) => {
                        proof {
                            assert(entry_seq(*l)[i as int].0 == key);
                        }
                        true
                    },
                    Err(_) => {
                        proof {
                            let es = subtree_entries(s0.pages@, f.id, 0);
                            assert(!kv_has(es, key)) by {
                                if kv_has(es, key) {
                                    let w = choose|w: int| 0 <= w < es.len() && es[w].0 == key;
                                    assert(l.keys@[w] == key);
                                }
                            }
                        }
                        false
                    },
                }
            },
            Node::Internal(_) => {
                proof {
                    assert(false);
                }
                return Err(BTreeStoreError::PageOutOfBounds);
            },
        };
        if present {
            return Err(BTreeStoreError::DuplicatedKey);
        }
        if (pages.len() as u128) + 2 * (flen as u128) + 3 > (u32::MAX as u128) {
            return Err(BTreeStoreError::PageOutOfBounds);
        }
        let state = match Self::insert_in_leaf(
            pages,
            tx,
            f,
            key,
            value,
            Ghost(finfo[ll as int].1),
            Ghost(finfo[ll as int].2),
            Ghost(ll == 0),
        ) {
            Ok(state) => state,
            Err(e) => {
                return Err(e);
            },
        };
        let ghost mid_pages = *pages;
        let ghost st_g = state;
        let r = Self::insert_in_internals(
            pages,
            tx,
            backtrack,
            state,
            key,
            value,
            Ghost(s0),
            Ghost(fframes),
            Ghost(finfo),
        );
        proof {
            if r is Ok {
                assert(mid_pages.pages@.len() >= s0.pages@.len());
                if tx.height@ == old(tx).height@ + 1 && old(tx).height@ == 0 {
                    assert(fframes.len() == 1);
                    assert(st_g is Splitted);
                    let rid = st_g->Splitted_2;
                    let sk = st_g->Splitted_1;
                    assert(pages.pages@[tx.root as int]->Internal_0.keys@[0] == sk);
                    assert(pages.pages@[tx.root as int]->Internal_0.children@[1] == rid);
                    assert(mid_pages.pages@[rid as int] is Leaf);
                    assert((rid as int) < mid_pages.pages@.len());
                    assert(mid_pages.pages@[rid as int]->Leaf_0.keys@.len() >= 1);
                    assert(mid_pages.pages@[rid as int]->Leaf_0.keys@[0] == sk);
                    assert(pages.pages@[rid as int] == mid_pages.pages@[rid as int]);
                }
            }
        }
        r
    }

    /// Insert and publish, without making the change durable: the new root
    /// is visible to subsequent readers at once, but only a checkpoint
    /// writes it to the durable metadata.
    pub fn insert_async(&mut self, key: u64, value: u64) -> (r: Result<(), BTreeStoreError>)
        requires
            old(self).wf(),
        ensures
            final(self).wf(),
            final(self).static_settings == old(self).static_settings,
            final(self).metadata.root == old(self).metadata.root,
            final(self).durable_entries() == old(self).durable_entries(),
            // copy-on-write: no page the old tree (or any snapshot of it)
            // could reach is rewritten; the arena only gains fresh pages
            store_extends(final(self).pages, old(self).pages),
            match r {
                Ok(()) => {
                    &&& !kv_has(old(self).entries(), key)
                    &&& ins_rel(old(self).entries(), final(self).entries(), key, value)
                    &&& final(self).pages.pages@.len() <= old(self).pages.pages@.len() + 2 * (
                    old(self).transaction_manager.height@ + 1) + 3
                    &&& final(self).transaction_manager.height@ <= old(
                        self,
                    ).transaction_manager.height@ + 1
                    // a split of a root leaf promotes the split key: the
                    // new root's one key is the right child's first key
                    &&& (final(self).transaction_manager.height@ == old(self).transaction_manager.height@ + 1 && old(self).transaction_manager.height@
                        == 0 ==> {
                        let rn = final(self).pages.pages@[final(self).transaction_manager.current_root as int]->Internal_0;
                        &&& rn.keys@.len() == 1
                        &&& rn.children@.len() == 2
                        &&& final(self).pages.pages@[rn.children@[1] as int] is Leaf
                        &&& final(self).pages.pages@[rn.children@[1] as int]->Leaf_0.keys@.len()
                            >= 1
                        &&& rn.keys@[0] == final(self).pages.pages@[rn.children@[1] as int]->Leaf_0.keys@[0]
                    })
                },
                Err(e) => {
                    &&& *final(self) == *old(self)
                    &&& (e == BTreeStoreError::DuplicatedKey || e
                        == BTreeStoreError::PageOutOfBounds)
                    &&& (e == BTreeStoreError::DuplicatedKey <==> kv_has(old(self).entries(), key))
                    &&& (e == BTreeStoreError::PageOutOfBounds ==> old(self).pages.pages@.len() + 2
                        * (old(self).transaction_manager.height@ + 1) + 3 > u32::MAX)
                },
            },
    {
        let ghost oldself = *self;
        let mut tx = self.transaction_manager.insert_transaction();
        let result = Self::insert(&mut self.pages, &mut tx, key, value);
        match result {
            Ok(()) => {
                self.transaction_manager.commit(tx);
                self.metadata.page_manager.next_page = self.pages.len() as u32;
                proof {
                    lemma_subtree_prefix_stable(
                        oldself.pages.pages@,
                        self.pages.pages@,
                        oldself.pages.leaf_cap(),
                        oldself.pages.internal_cap(),
                        oldself.metadata.root,
                        oldself.durable_height@,
                        0,
                        key_ub(),
                        true,
                    );
                }
                Ok(())
            },
            Err(e) => Err(e),
        }
    }

    /// Insert and checkpoint: the change is durable when this returns.
    pub fn insert_one(&mut self, key: u64, value: u64) -> (r: Result<(), BTreeStoreError>)
        requires
            old(self).wf(),
        ensures
            final(self).wf(),
            final(self).static_settings == old(self).static_settings,
            store_extends(final(self).pages, old(self).pages),
            match r {
                Ok(()) => {
                    &&& !kv_has(old(self).entries(), key)
                    &&& ins_rel(old(self).entries(), final(self).entries(), key, value)
                    &&& final(self).durable_entries() == final(self).entries()
                    &&& final(self).pages.pages@.len() <= old(self).pages.pages@.len() + 2 * (
                    old(self).transaction_manager.height@ + 1) + 3
                    &&& final(self).transaction_manager.height@ <= old(
                        self,
                    ).transaction_manager.height@ + 1
                    // a split of a root leaf promotes the split key: the
                    // new root's one key is the right child's first key
                    &&& (final(self).transaction_manager.height@ == old(self).transaction_manager.height@ + 1 && old(self).transaction_manager.height@
                        == 0 ==> {
                        let rn = final(self).pages.pages@[final(self).transaction_manager.current_root as int]->Internal_0;
                        &&& rn.keys@.len() == 1
                        &&& rn.children@.len() == 2
                        &&& final(self).pages.pages@[rn.children@[1] as int] is Leaf
                        &&& final(self).pages.pages@[rn.children@[1] as int]->Leaf_0.keys@.len()
                            >= 1
                        &&& rn.keys@[0] == final(self).pages.pages@[rn.children@[1] as int]->Leaf_0.keys@[0]
                    })
                },
                Err(e) => {
                    &&& *final(self) == *old(self)
                    &&& (e == BTreeStoreError::DuplicatedKey || e
                        == BTreeStoreError::PageOutOfBounds)
                    &&& (e == BTreeStoreError::DuplicatedKey <==> kv_has(old(self).entries(), key))
                    &&& (e == BTreeStoreError::PageOutOfBounds ==> old(self).pages.pages@.len() + 2
                        * (old(self).transaction_manager.height@ + 1) + 3 > u32::MAX)
                },
            },
    {
        let r = self.insert_async(key, value);
        match r {
            Ok(()) => {
                self.checkpoint()
            },
            Err(e) => Err(e),
        }
    }

    /// Insert a batch inside one write transaction, then checkpoint. On any
    /// refused key the whole batch is discarded and the tree is unchanged.
    pub fn insert_many(&mut self, iter: &Vec<(u64, u64)>) -> (r: Result<(), BTreeStoreError>)
        requires
            old(self).wf(),
        ensures
            final(self).wf(),
            final(self).static_settings == old(self).static_settings,
            store_extends(final(self).pages, old(self).pages),
            match r {
                Ok(()) => {
                    &&& (forall|e: (u64, u64)|
                        final(self).entries().contains(e) <==> old(self).entries().contains(e)
                            || iter@.contains(e))
                    &&& final(self).durable_entries() == final(self).entries()
                },
                Err(e) => {
                    &&& final(self).entries() == old(self).entries()
                    &&& final(self).durable_entries() == old(self).durable_entries()
                    &&& (e == BTreeStoreError::DuplicatedKey || e
                        == BTreeStoreError::PageOutOfBounds)
                    // a duplicate error only for a batch key already in the
                    // tree or repeated within the batch
                    &&& (e == BTreeStoreError::DuplicatedKey ==> exists|i: int|
                        0 <= i < iter@.len() && (kv_has(
                            old(self).entries(),
                            (#[trigger] iter@[i]).0,
                        ) || exists|j: int| 0 <= j < i && iter@[j].0 == iter@[i].0))
                    // an out-of-space error only when the arena cannot hold
                    // the batch's worst-case page allocation
                    &&& (e == BTreeStoreError::PageOutOfBounds ==> old(self).pages.pages@.len() + (
                    iter@.len() + 1) * (2 * (old(self).transaction_manager.height@ + iter@.len()
                        + 1) + 3) > u32::MAX)
                },
            },
    {
        let ghost tree0 = *self;
        let ghost n0 = iter@.len() as int;
        let ghost h0 = self.transaction_manager.height@ as int;
        let ghost len0 = self.pages.pages@.len() as int;
        let ghost step = 2 * (h0 + n0 + 1) + 3;
        let mut tx = self.transaction_manager.insert_transaction();
        let mut i: usize = 0;
        while i < iter.len()
            invariant
                tree0 == *old(self),
                tree0.wf(),
                i <= iter@.len(),
                n0 == iter@.len() as int,
                h0 == tree0.transaction_manager.height@ as int,
                len0 == tree0.pages.pages@.len() as int,
                step == 2 * (h0 + n0 + 1) + 3,
                tx.height@ as int <= h0 + i,
                tx.height@ < self.pages.pages@.len(),
                self.pages.pages@.len() as int <= len0 + i * step,
                self.metadata == tree0.metadata,
                self.static_settings == tree0.static_settings,
                self.transaction_manager == tree0.transaction_manager,
                self.durable_height == tree0.durable_height,
                store_extends(self.pages, tree0.pages),
                crate::storage::pages_fit(self.pages),
                self.pages.pages@.len() <= u32::MAX,
                self.pages.wf_subtree(tx.root, tx.height@, 0, key_ub(), true),
                forall|e: (u64, u64)|
                    #[trigger] subtree_entries(self.pages.pages@, tx.root, tx.height@).contains(e)
                        <==> tree0.entries().contains(e) || iter@.take(i as int).contains(e),
            decreases iter@.len() - i,
        {
            let (k, v) = iter[i];
            let ghost pre_pages = self.pages;
            let ghost pre_tx = tx;
            let ghost pre = subtree_entries(self.pages.pages@, tx.root, tx.height@);
            proof {
                assert(forall|e: (u64, u64)|
                    #[trigger] pre.contains(e) <==> tree0.entries().contains(e) || iter@.take(
                        i as int,
                    ).contains(e));
            }
            let r = Self::insert(&mut self.pages, &mut tx, k, v);
            match r {
                Ok(()) => {},
                Err(e) => {
                    self.metadata.page_manager.next_page = self.pages.len() as u32;
                    proof {
                        lemma_subtree_prefix_stable(
                            tree0.pages.pages@,
                            self.pages.pages@,
                            tree0.pages.leaf_cap(),
                            tree0.pages.internal_cap(),
                            tree0.metadata.root,
                            tree0.durable_height@,
                            0,
                            key_ub(),
                            true,
                        );
                        lemma_subtree_prefix_stable(
                            tree0.pages.pages@,
                            self.pages.pages@,
                            tree0.pages.leaf_cap(),
                            tree0.pages.internal_cap(),
                            tree0.transaction_manager.current_root,
                            tree0.transaction_manager.height@,
                            0,
                            key_ub(),
                            true,
                        );
                        if e == BTreeStoreError::DuplicatedKey {
                            assert(kv_has(pre, k));
                            let w = choose|w: int| 0 <= w < pre.len() && pre[w].0 == k;
                            assert(pre.contains(pre[w]));
                            if !tree0.entries().contains(pre[w]) {
                                assert(iter@.take(i as int).contains(pre[w]));
                                let j = choose|j: int|
                                    0 <= j < iter@.take(i as int).len() && #[trigger] iter@.take(
                                        i as int,
                                    )[j] == pre[w];
                                assert(iter@[j].0 == iter@[i as int].0);
                            } else {
                                let j = choose|j: int|
                                    0 <= j < tree0.entries().len() && #[trigger] tree0.entries()[j]
                                        == pre[w];
                                assert(kv_has(tree0.entries(), iter@[i as int].0));
                            }
                        }
                        if e == BTreeStoreError::PageOutOfBounds {
                            assert(pre_pages.pages@.len() + 2 * (pre_tx.height@ + 1) + 3
                                > u32::MAX);
                            assert(2 * ((pre_tx.height@ as int) + 1) + 3 <= step);
                            assert((i as int) * step <= n0 * step) by (nonlinear_arith)
                                requires
                                    0 <= i as int <= n0,
                                    step >= 0,
                            ;
                            assert((n0 + 1) * step == n0 * step + step) by (nonlinear_arith);
                            assert(len0 + (n0 + 1) * step > u32::MAX);
                        }
                    }
                    return Err(e);
                },
            }
            proof {
                assert(self.pages.pages@.len() as int <= (len0 + i * step) + 2 * ((
                pre_tx.height@ as int) + 1) + 3);
                assert(2 * ((pre_tx.height@ as int) + 1) + 3 <= step);
                assert(((i as int) + 1) * step == (i as int) * step + step) by (nonlinear_arith);
                assert(self.pages.pages@.len() as int <= len0 + ((i as int) + 1) * step);
                let post = subtree_entries(self.pages.pages@, tx.root, tx.height@);
                assert(ins_rel(pre, post, k, v));
                assert(iter@.take(i + 1).drop_last() =~= iter@.take(i as int));
                assert(iter@[i as int] == (k, v));
                assert forall|e: (u64, u64)| iter@.take(i + 1).contains(e) implies iter@.take(
                    i as int,
                ).contains(e) || e == (k, v) by {
                    let w = choose|w: int|
                        0 <= w < iter@.take(i + 1).len() && #[trigger] iter@.take(i + 1)[w] == e;
                    if w < i {
                        assert(iter@.take(i as int)[w] == e);
                    }
                }
                assert forall|e: (u64, u64)| iter@.take(i as int).contains(e) implies iter@.take(
                    i + 1,
                ).contains(e) by {
                    let w = choose|w: int|
                        0 <= w < iter@.take(i as int).len() && #[trigger] iter@.take(i as int)[w]
                            == e;
                    assert(iter@.take(i + 1)[w] == e);
                }
                assert(iter@.take(i + 1)[i as int] == (k, v));
                assert(iter@.take(i + 1).contains((k, v)));
                assert forall|e: (u64, u64)| post.contains(e) implies tree0.entries().contains(
                    e,
                ) || iter@.take(i + 1).contains(e) by {
                    assert(pre.contains(e) <==> tree0.entries().contains(e) || iter@.take(
                        i as int,
                    ).contains(e));
                    if e != (k, v) {
                        assert(pre.contains(e));
                    }
                }
                assert forall|e: (u64, u64)|
                    tree0.entries().contains(e) || iter@.take(i + 1).contains(
                        e,
                    ) implies post.contains(e) by {
                    assert(pre.contains(e) <==> tree0.entries().contains(e) || iter@.take(
                        i as int,
                    ).contains(e));
                    if e.0 == k {
                        if tree0.entries().contains(e) || iter@.take(i as int).contains(e) {
                            assert(pre.contains(e));
                            let w = choose|w: int| 0 <= w < pre.len() && pre[w] == e;
                            assert(pre[w].0 == k);
                            assert(kv_has(pre, k));
                            assert(false);
                        } else {
                            assert(e == (k, v));
                        }
                    } else {
                        assert(pre.contains(e));
                    }
                }
            }
            i = i + 1;
        }
        proof {
            assert(iter@.take(iter@.len() as int) =~= iter@);
        }
        let ghost txg = tx;
        self.transaction_manager.commit(tx);
        self.metadata.page_manager.next_page = self.pages.len() as u32;
        proof {
            lemma_subtree_prefix_stable(
                tree0.pages.pages@,
                self.pages.pages@,
                tree0.pages.leaf_cap(),
                tree0.pages.internal_cap(),
                tree0.metadata.root,
                tree0.durable_height@,
                0,
                key_ub(),
                true,
            );
        }
        let ghost pre_ck = *self;
        proof {
            assert(tree0 == *old(self));
            assert(pre_ck.entries() == subtree_entries(self.pages.pages@, txg.root, txg.height@));
            assert(forall|e: (u64, u64)|
                pre_ck.entries().contains(e) <==> old(self).entries().contains(e)
                    || iter@.contains(e));
            assert(pre_ck.wf());
        }
        let r = self.checkpoint();
        proof {
            assert(self.entries() == pre_ck.entries());
        }
        r
    }

    /// Make the published state durable: graduate the retired pages into
    /// the free list and rewrite the durable metadata to the current root.
    pub fn checkpoint(&mut self) -> (r: Result<(), BTreeStoreError>)
        requires
            old(self).wf(),
        ensures
            final(self).wf(),
            r == Ok::<(), BTreeStoreError>(()),
            final(self).static_settings == old(self).static_settings,
            final(self).pages == old(self).pages,
            final(self).transaction_manager.current_root == old(self).transaction_manager.current_root,
            final(self).transaction_manager.height@ == old(self).transaction_manager.height@,
            final(self).transaction_manager.current_version == old(
                self,
            ).transaction_manager.current_version,
            final(self).entries() == old(self).entries(),
            final(self).durable_entries() == old(self).entries(),
            final(self).metadata.root == old(self).transaction_manager.current_root,
            final(self).metadata.page_manager.next_page == old(
                self,
            ).metadata.page_manager.next_page,
            // the retired pages graduate into the free list; afterwards the
            // queue is empty, so a second checkpoint changes nothing
            final(self).transaction_manager.pending@ =~= Seq::<
                crate::version_management::PendingBucket,
            >::empty(),
            old(self).metadata.page_manager.free@.len()
                + crate::version_management::pending_freed(
                old(self).transaction_manager.pending@,
            ).len() <= u32::MAX ==> final(self).metadata.page_manager.free@ == old(
                self,
            ).metadata.page_manager.free@ + crate::version_management::pending_freed(
                old(self).transaction_manager.pending@,
            ),
    {
        let ghost free0 = self.metadata.page_manager.free@;
        let freed = self.transaction_manager.collect_pending();
        let mut fi: usize = 0;
        while fi < freed.len()
            invariant
                old(self).wf(),
                free0 == old(self).metadata.page_manager.free@,
                self.pages == old(self).pages,
                self.metadata.root == old(self).metadata.root,
                self.metadata.page_manager.next_page == old(self).metadata.page_manager.next_page,
                self.static_settings == old(self).static_settings,
                self.transaction_manager.current_root == old(self).transaction_manager.current_root,
                self.transaction_manager.height@ == old(self).transaction_manager.height@,
                self.transaction_manager.current_version == old(
                    self,
                ).transaction_manager.current_version,
                self.transaction_manager.pending@ =~= Seq::<
                    crate::version_management::PendingBucket,
                >::empty(),
                fi <= freed@.len(),
                self.metadata.page_manager.free@.len() <= u32::MAX,
                free0.len() + freed@.len() <= u32::MAX ==> self.metadata.page_manager.free@
                    == free0 + freed@.take(fi as int),
            decreases freed@.len() - fi,
        {
            if self.metadata.page_manager.free.len() < (u32::MAX as usize) {
                self.metadata.page_manager.free.push(freed[fi]);
                proof {
                    if free0.len() + freed@.len() <= u32::MAX {
                        assert(freed@.take(fi + 1) =~= freed@.take(fi as int).push(
                            freed@[fi as int],
                        ));
                    }
                }
            } else {
                // the free list is full: the id leaks as an unreferenced
                // page rather than overflowing the durable record
                proof {
                    assert(free0.len() + freed@.len() > u32::MAX);
                }
            }
            fi = fi + 1;
        }
        proof {
            assert(freed@.take(freed@.len() as int) =~= freed@);
        }
        let root = self.transaction_manager.current_root;
        self.metadata.set_root(root);
        self.durable_height = Ghost(self.transaction_manager.height@);
        Ok(())
    }

    /// Delete within a write transaction. The tree the transaction roots
    /// afterwards holds exactly the old entries minus the one keyed `key`;
    /// an absent key changes nothing and is not an error.
    pub fn delete_async(pages: &mut PageStore, tx: &mut WriteTransaction, key: u64) -> (r: Result<
        (),
        BTreeStoreError,
    >)
        requires
            valid_page_size(old(pages).page_size),
            crate::storage::pages_fit(*old(pages)),
            old(pages).wf_subtree(old(tx).root, old(tx).height@, 0, key_ub(), true),
        ensures
            store_extends(*final(pages), *old(pages)),
            crate::storage::pages_fit(*final(pages)),
            final(tx).version == old(tx).version,
            match r {
                Ok(()) => {
                    &&& (final(pages).pages@.len() <= u32::MAX || *final(pages) == *old(pages))
                    &&& final(pages).pages@.len() <= old(pages).pages@.len() + 3 * (old(
                    tx).height@ + 1) + 3
                    &&& final(pages).wf_subtree(final(tx).root, final(tx).height@, 0, key_ub(), true)
                    &&& del_rel(
                        subtree_entries(old(pages).pages@, old(tx).root, old(tx).height@),
                        subtree_entries(final(pages).pages@, final(tx).root, final(tx).height@),
                        key,
                    )
                    &&& (final(tx).height@ == old(tx).height@ || final(tx).height@ + 1 == old(
                        tx,
                    ).height@)
                    &&& (!kv_has(
                        subtree_entries(old(pages).pages@, old(tx).root, old(tx).height@),
                        key,
                    ) ==> *final(pages) == *old(pages) && *final(tx) == *old(tx))
                },
                Err(e) => {
                    &&& *final(pages) == *old(pages)
                    &&& *final(tx) == *old(tx)
                    &&& e == BTreeStoreError::PageOutOfBounds
                    &&& old(pages).pages@.len() + 3 * (old(tx).height@ + 1) + 3 > u32::MAX
                },
            },
    {
        let ghost s0 = *pages;
        let root = tx.root;
        let mut backtrack = DeleteBacktrack::new_search_for(pages, root, Ghost(tx.height@), key);
        let ghost fframes = backtrack.frames@;
        let ghost finfo = backtrack.info@;
        let flen = backtrack.frames.len();
        if (pages.len() as u128) + 3 * (flen as u128) + 3 > (u32::MAX as u128) {
            return Err(BTreeStoreError::PageOutOfBounds);
        }
        let f = match backtrack.frames.pop() {
            Some(f) => f,
            None => {
                proof {
                    assert(false);
                }
                return Err(BTreeStoreError::PageOutOfBounds);
            },
        };
        let ghost ll = fframes.len() - 1;
        proof {
            assert(f == fframes[ll]);
            assert(backtrack.frames@ =~= fframes.take(ll as int));
            lemma_path_localizes(s0, fframes, finfo, root, tx.height@, key, 0);
        }
        let lcap = pages.leaf_capacity();
        let status = match pages.get_page(f.id) {
            Node::Leaf(l) => leaf_delete(l, key, lcap),
            Node::Internal(_) => {
                proof {
                    assert(false);
                }
                return Err(BTreeStoreError::PageOutOfBounds);
            },
        };
        let ghost e0_leaf = subtree_entries(s0.pages@, f.id, 0);
        let state = match status {
            LeafDeleteStatus::NotFound => {
                proof {
                    let e0 = subtree_entries(s0.pages@, root, tx.height@);
                    assert(!kv_has(e0, key));
                    assert(del_rel(e0, e0, key));
                }
                return Ok(());
            },
            LeafDeleteStatus::Removed(nl) => {
                let ghost g = nl;
                proof {
                    assert(kv_has(subtree_entries(s0.pages@, root, tx.height@), key));
                }
                let nid = InsertBacktrack::add_new_node(pages, Node::Leaf(nl));
                tx.freed.push(f.id);
                proof {
                    assert(pages.pages@[nid as int] == Node::Leaf(g));
                    assert forall|i: int|
                        0 <= i < g.keys@.len() implies finfo[ll as int].1 <= #[trigger] g.keys@[i]
                        && (g.keys@[i] as int) < finfo[ll as int].2 by {
                        let l0 = s0.pages@[f.id as int]->Leaf_0;
                        assert(l0.keys@.contains(g.keys@[i]));
                        let w = choose|w: int| 0 <= w < l0.keys@.len() && l0.keys@[w] == g.keys@[i];
                        assert(finfo[ll as int].1 <= l0.keys@[w] && (l0.keys@[w] as int)
                            < finfo[ll as int].2);
                    }
                    assert(pages.wf_subtree(
                        nid,
                        0,
                        finfo[ll as int].1,
                        finfo[ll as int].2,
                        ll == 0,
                    ));
                }
                DelState::Replaced(nid)
            },
            LeafDeleteStatus::NeedsRebalance(nl) => {
                tx.freed.push(f.id);
                proof {
                    assert(kv_has(subtree_entries(s0.pages@, root, tx.height@), key));
                    let g = nl;
                    assert forall|i: int|
                        0 <= i < g.keys@.len() implies finfo[ll as int].1 <= #[trigger] g.keys@[i]
                        && (g.keys@[i] as int) < finfo[ll as int].2 by {
                        let l0 = s0.pages@[f.id as int]->Leaf_0;
                        assert(l0.keys@.contains(g.keys@[i]));
                        let w = choose|w: int| 0 <= w < l0.keys@.len() && l0.keys@[w] == g.keys@[i];
                        assert(finfo[ll as int].1 <= l0.keys@[w] && (l0.keys@[w] as int)
                            < finfo[ll as int].2);
                    }
                }
                DelState::UnderfullLeaf(nl)
            },
        };
        Self::delete_internal(
            pages,
            tx,
            backtrack,
            state,
            key,
            Ghost(s0),
            Ghost(fframes),
            Ghost(finfo),
        )
    }

    /// Unwind the backtrack stack of a delete: rebuild each parent with its
    /// child rebound, repairing an underfull child through its siblings
    /// (borrow if one can lend, else merge); an empty internal root is
    /// replaced by its only child.
    #[verifier::rlimit(100)]
    #[verifier::spinoff_prover]
    pub fn delete_internal(
        pages: &mut PageStore,
        tx: &mut WriteTransaction,
        backtrack: DeleteBacktrack,
        state: DelState,
        key: u64,
        Ghost(s0): Ghost<PageStore>,
        Ghost(fframes): Ghost<Seq<Frame>>,
        Ghost(finfo): Ghost<Seq<(nat, int, int)>>,
    ) -> (r: Result<(), BTreeStoreError>)
        requires
            valid_page_size(s0.page_size),
            path_ok(s0, fframes, finfo, old(tx).root, old(tx).height@, key),
            store_extends(*old(pages), s0),
            crate::storage::pages_fit(*old(pages)),
            backtrack.frames@ == fframes.take(backtrack.frames@.len() as int),
            backtrack.frames@.len() == fframes.len() - 1,
            old(pages).pages@.len() + 3 * backtrack.frames@.len() + 2 <= u32::MAX,
            del_prop_ok(
                *old(pages),
                subtree_entries(
                    s0.pages@,
                    fframes[backtrack.frames@.len() as int].id,
                    finfo[backtrack.frames@.len() as int].0,
                ),
                finfo[backtrack.frames@.len() as int].0,
                finfo[backtrack.frames@.len() as int].1,
                finfo[backtrack.frames@.len() as int].2,
                backtrack.frames@.len() == 0,
                state,
                key,
            ),
        ensures
            store_extends(*final(pages), *old(pages)),
            crate::storage::pages_fit(*final(pages)),
            store_extends(*final(pages), s0),
            match r {
                Ok(()) => {
                    &&& final(pages).pages@.len() <= u32::MAX
                    &&& final(pages).pages@.len() <= old(pages).pages@.len() + 3 * (fframes.len()
                        - 1) + 1
                    &&& final(pages).wf_subtree(final(tx).root, final(tx).height@, 0, key_ub(), true)
                    &&& del_rel(
                        subtree_entries(s0.pages@, old(tx).root, old(tx).height@),
                        subtree_entries(final(pages).pages@, final(tx).root, final(tx).height@),
                        key,
                    )
                    &&& (final(tx).height@ == old(tx).height@ || final(tx).height@ + 1 == old(
                        tx,
                    ).height@)
                    &&& final(tx).version == old(tx).version
                },
                Err(_) => false,
            },
    {
        let ghost root0 = tx.root;
        let ghost h0 = tx.height@;
        let ghost cl = s0.leaf_cap();
        let ghost ci = s0.internal_cap();
        let mut backtrack = backtrack;
        let mut state = state;
        let lcap = pages.leaf_capacity();
        let icap = pages.internal_capacity();
        let lmin = min_leaf_cap(lcap);
        let imin = min_internal_cap(icap);
        while backtrack.frames.len() > 0
            invariant
                valid_page_size(s0.page_size),
                cl == s0.leaf_cap(),
                ci == s0.internal_cap(),
                lcap as int == cl,
                icap as int == ci,
                lmin as int == crate::node::min_leaf(cl),
                imin as int == crate::node::min_internal(ci),
                path_ok(s0, fframes, finfo, root0, h0, key),
                store_extends(*pages, s0),
                store_extends(*pages, *old(pages)),
                crate::storage::pages_fit(*pages),
                backtrack.frames@ == fframes.take(backtrack.frames@.len() as int),
                backtrack.frames@.len() <= fframes.len() - 1,
                pages.pages@.len() + 3 * backtrack.frames@.len() + 2 <= u32::MAX,
                pages.pages@.len() + 3 * backtrack.frames@.len() <= old(pages).pages@.len() + 3 * (
                fframes.len() - 1),
                del_prop_ok(
                    *pages,
                    subtree_entries(
                        s0.pages@,
                        fframes[backtrack.frames@.len() as int].id,
                        finfo[backtrack.frames@.len() as int].0,
                    ),
                    finfo[backtrack.frames@.len() as int].0,
                    finfo[backtrack.frames@.len() as int].1,
                    finfo[backtrack.frames@.len() as int].2,
                    backtrack.frames@.len() == 0,
                    state,
                    key,
                ),
                tx.root == root0,
                tx.height@ == h0,
                tx.version == old(tx).version,
                root0 == old(tx).root,
                h0 == old(tx).height@,
            decreases backtrack.frames@.len(),
        {
            let ghost j = backtrack.frames@.len() as int;
            let f = match backtrack.frames.pop() {
                Some(f) => f,
                None => {
                    proof {
                        assert(false);
                    }
                    return Err(BTreeStoreError::InvariantViolation);
                },
            };
            proof {
                assert(fframes.take(j).drop_last() =~= fframes.take(j - 1));
                assert(f == fframes[j - 1]);
            }
            let ghost jj = j - 1;
            let ghost ph = finfo[jj].0;
            let ghost plo = finfo[jj].1;
            let ghost phi = finfo[jj].2;
            let ghost hc = (ph - 1) as nat;
            let ghost pk = s0.pages@[f.id as int]->Internal_0.keys@;
            let ghost pc = s0.pages@[f.id as int]->Internal_0.children@;
            let ghost p1 = pages.pages@;
            proof {
                assert(s0.pages@[f.id as int] is Internal);
                assert(pages.pages@[f.id as int] == s0.pages@[f.id as int]);
                assert(subtree_wf(s0.pages@, cl, ci, f.id, ph, plo, phi, jj == 0));
                assert(kids_wf(s0.pages@, cl, ci, pk, pc, hc, plo, phi));
                assert(finfo[j].0 == hc);
                assert(finfo[j].1 == child_lo(pk, plo, f.pos as int));
                assert(finfo[j].2 == child_hi(pk, phi, f.pos as int));
            }
            let (pkeys, pchildren) = {
                let n = match pages.get_page(f.id) {
                    Node::Internal(n) => n,
                    Node::Leaf(_) => {
                        proof {
                            assert(false);
                        }
                        return Err(BTreeStoreError::InvariantViolation);
                    },
                };
                (
                    crate::arrayview::array_take(&n.keys, n.keys.len()),
                    crate::arrayview::array_take(&n.children, n.children.len()),
                )
            };
            proof {
                assert(pkeys@ =~= pk);
                assert(pchildren@ =~= pc);
            }
            let pos = f.pos;
            match state {
                DelState::Replaced(nid) => {
                    let r = Self::replace_child_level(
                        pages,
                        tx,
                        f,
                        nid,
                        &pkeys,
                        &pchildren,
                        key,
                        Ghost(s0),
                        Ghost(ph),
                        Ghost(plo),
                        Ghost(phi),
                        Ghost(jj == 0),
                    );
                    match r {
                        Ok(st) => {
                            state = st;
                        },
                        Err(e) => {
                            proof {
                                assert(false);
                            }
                            return Err(e);
                        },
                    }
                },
                DelState::UnderfullLeaf(nd) => {
                    let r = Self::rebalance_leaf_level(
                        pages,
                        tx,
                        f,
                        nd,
                        &pkeys,
                        &pchildren,
                        key,
                        lcap,
                        icap,
                        lmin,
                        imin,
                        Ghost(s0),
                        Ghost(ph),
                        Ghost(plo),
                        Ghost(phi),
                        Ghost(jj == 0),
                    );
                    match r {
                        Ok(st) => {
                            state = st;
                        },
                        Err(e) => {
                            proof {
                                assert(false);
                            }
                            return Err(e);
                        },
                    }
                },
                DelState::UnderfullInternal(nd) => {
                    let r = Self::rebalance_internal_level(
                        pages,
                        tx,
                        f,
                        nd,
                        &pkeys,
                        &pchildren,
                        key,
                        lcap,
                        icap,
                        lmin,
                        imin,
                        Ghost(s0),
                        Ghost(ph),
                        Ghost(plo),
                        Ghost(phi),
                        Ghost(jj == 0),
                    );
                    match r {
                        Ok(st) => {
                            state = st;
                        },
                        Err(e) => {
                            proof {
                                assert(false);
                            }
                            return Err(e);
                        },
                    }
                },
            }
        }
        // the stack is empty: the state describes the root level
        proof {
            assert(fframes.take(0) =~= Seq::<Frame>::empty());
            assert(fframes[0].id == root0);
        }
        match state {
            DelState::Replaced(nid) => {
                InsertBacktrack::new_root(tx, nid, Ghost(h0));
                Ok(())
            },
            DelState::UnderfullLeaf(nd) => {
                let ghost g = nd;
                let nid = InsertBacktrack::add_new_node(pages, Node::Leaf(nd));
                InsertBacktrack::new_root(tx, nid, Ghost(0));
                proof {
                    assert(pages.pages@[nid as int] == Node::Leaf(g));
                    assert(pages.wf_subtree(nid, 0, 0, key_ub(), true));
                }
                Ok(())
            },
            DelState::UnderfullInternal(nd) => {
                if nd.keys.len() == 0 {
                    // an emptied internal root: promote its only child
                    let child = nd.children[0];
                    InsertBacktrack::new_root(tx, child, Ghost((h0 - 1) as nat));
                    proof {
                        assert(nd.children@.len() == 1);
                        assert(subtree_wf(
                            pages.pages@,
                            cl,
                            ci,
                            child,
                            (h0 - 1) as nat,
                            0,
                            key_ub(),
                            false,
                        ));
                        assert(subtree_wf(
                            pages.pages@,
                            cl,
                            ci,
                            child,
                            (h0 - 1) as nat,
                            0,
                            key_ub(),
                            true,
                        ));
                        lemma_kids_entries_one(pages.pages@, child, (h0 - 1) as nat);
                        assert(nd.children@ =~= seq![child]);
                    }
                    Ok(())
                } else {
                    let ghost g = nd;
                    let ghost p1 = pages.pages@;
                    let nid = InsertBacktrack::add_new_node(pages, Node::Internal(nd));
                    InsertBacktrack::new_root(tx, nid, Ghost(h0));
                    proof {
                        let p2 = pages.pages@;
                        assert(p2[nid as int] == Node::Internal(g));
                        lemma_kids_stable_full(
                            p1,
                            p2,
                            cl,
                            ci,
                            g.keys@,
                            g.children@,
                            (h0 - 1) as nat,
                            0,
                            key_ub(),
                        );
                        assert(subtree_wf(p2, cl, ci, nid, h0, 0, key_ub(), true));
                    }
                    Ok(())
                }
            },
        }
    }

    /// The three byte images are exactly what the serialization functions
    /// produce for the tree `t0`: the settings header, the metadata record,
    /// and one encoded page per arena slot.
    pub open spec fn serialized_images_of(
        t0: BTree,
        md: Seq<u8>,
        tf: Seq<u8>,
        st: Seq<u8>,
    ) -> bool {
        let ps = t0.static_settings.page_size as int;
        &&& t0.wf()
        &&& st.len() >= 6
        &&& crate::codec::decode_u16(st, 0) == t0.static_settings.page_size
        &&& crate::codec::decode_u32(st, 2) == t0.static_settings.key_buffer_size
        &&& md.len() == 12 + 4 * t0.metadata.page_manager.free@.len()
        &&& crate::codec::decode_u32(md, 0) == t0.metadata.root
        &&& crate::codec::decode_u32(md, 4) == t0.metadata.page_manager.next_page
        &&& crate::codec::decode_u32(md, 8) == t0.metadata.page_manager.free@.len()
        &&& tf.len() == ps * t0.pages.pages@.len()
        &&& forall|i: int|
            0 <= i < t0.pages.pages@.len() ==> crate::storage::encodes_node(
                tf,
                ps * i,
                ps,
                #[trigger] t0.pages.pages@[i],
            )
    }

    /// Reopen a tree from its three durable images: the static settings
    /// and metadata are parsed, the page image is decoded, and the whole
    /// tree under the durable root is walked and checked before anything
    /// is trusted. Corrupt input of any shape is refused, never loaded;
    /// the serialized images of a well-formed tree are always accepted and
    /// give back its durable root, settings and entries.
    pub fn open(
        metadata_file: &Vec<u8>,
        tree_file: &Vec<u8>,
        static_settings_file: &Vec<u8>,
    ) -> (r: Result<BTree, BTreeStoreError>)
        ensures
            match r {
                Ok(t) => {
                    &&& t.wf()
                    &&& static_settings_file@.len() >= 6
                    &&& metadata_file@.len() >= 12
                    &&& t.static_settings.page_size == crate::codec::decode_u16(
                        static_settings_file@,
                        0,
                    )
                    &&& t.static_settings.key_buffer_size == crate::codec::decode_u32(
                        static_settings_file@,
                        2,
                    )
                    &&& t.metadata.root == crate::codec::decode_u32(metadata_file@, 0)
                    &&& t.transaction_manager.current_root == t.metadata.root
                    &&& t.durable_entries() == t.entries()
                },
                Err(_) => true,
            },
            forall|t0: BTree|
                #[trigger] Self::serialized_images_of(
                    t0,
                    metadata_file@,
                    tree_file@,
                    static_settings_file@,
                ) ==> r is Ok && r->Ok_0.entries() == t0.durable_entries()
                    && r->Ok_0.metadata.root == t0.metadata.root && r->Ok_0.static_settings
                    == t0.static_settings,
    {
        let ghost md = metadata_file@;
        let ghost tf = tree_file@;
        let ghost st = static_settings_file@;
        let static_settings = match crate::metadata::StaticSettings::read(static_settings_file) {
            Ok(s) => s,
            Err(e) => {
                proof {
                    assert forall|t0: BTree|
                        !Self::serialized_images_of(t0, md, tf, st) by {
                        if Self::serialized_images_of(t0, md, tf, st) {
                            assert(st.len() >= 6);
                        }
                    }
                }
                return Err(e);
            },
        };
        if static_settings.page_size < 40 {
            proof {
                assert forall|t0: BTree| !Self::serialized_images_of(t0, md, tf, st) by {
                    if Self::serialized_images_of(t0, md, tf, st) {
                        assert(t0.static_settings.page_size >= 40);
                    }
                }
            }
            return Err(BTreeStoreError::CorruptedPage);
        }
        let metadata = match crate::metadata::Metadata::read(metadata_file) {
            Ok(m) => m,
            Err(e) => {
                proof {
                    assert forall|t0: BTree|
                        !Self::serialized_images_of(t0, md, tf, st) by {
                        if Self::serialized_images_of(t0, md, tf, st) {
                            let f = t0.metadata.page_manager.free@.len() as int;
                            assert(md.len() == 12 + 4 * f);
                            assert((crate::codec::decode_u32(md, 8) as int) == f);
                            assert((md.len() - 12) / 4 == f);
                        }
                    }
                }
                return Err(e);
            },
        };
        let pages_vec = match crate::storage::parse_pages(
            tree_file,
            static_settings.page_size as usize,
        ) {
            Ok(p) => p,
            Err(e) => {
                proof {
                    assert forall|t0: BTree|
                        !Self::serialized_images_of(t0, md, tf, st) by {
                        if Self::serialized_images_of(t0, md, tf, st) {
                            let ps = t0.static_settings.page_size as int;
                            let ns = t0.pages.pages@;
                            assert(tf.len() == ps * ns.len());
                        }
                    }
                }
                return Err(e);
            },
        };
        proof {
            assert forall|t0: BTree|
                #[trigger] Self::serialized_images_of(t0, md, tf, st) implies pages_vec@.len()
                == t0.pages.pages@.len() && (forall|i: int|
                0 <= i < t0.pages.pages@.len() ==> crate::node::node_views_eq(
                    #[trigger] pages_vec@[i],
                    t0.pages.pages@[i],
                )) by {
                let ps = t0.static_settings.page_size as int;
                let ns = t0.pages.pages@;
                assert(tf.len() == ps * ns.len());
                assert forall|i: int|
                    0 <= i < ns.len() implies crate::node::node_views_eq(
                    #[trigger] pages_vec@[i],
                    ns[i],
                ) by {
                    assert(crate::node::node_views_eq(pages_vec@[i], ns[i]));
                }
            }
        }
        if metadata.page_manager.next_page as usize != pages_vec.len() {
            proof {
                assert forall|t0: BTree| !Self::serialized_images_of(t0, md, tf, st) by {
                    if Self::serialized_images_of(t0, md, tf, st) {
                        assert(pages_vec@.len() == t0.pages.pages@.len());
                        assert(t0.metadata.page_manager.next_page as int
                            == t0.pages.pages@.len());
                    }
                }
            }
            return Err(BTreeStoreError::CorruptedPage);
        }
        if pages_vec.len() < 2 {
            proof {
                assert forall|t0: BTree| !Self::serialized_images_of(t0, md, tf, st) by {
                    if Self::serialized_images_of(t0, md, tf, st) {
                        assert(pages_vec@.len() == t0.pages.pages@.len());
                        assert(t0.pages.pages@.len() >= 2);
                    }
                }
            }
            return Err(BTreeStoreError::CorruptedPage);
        }
        let store = PageStore { pages: pages_vec, page_size: static_settings.page_size };
        proof {
            assert forall|t0: BTree|
                #[trigger] Self::serialized_images_of(t0, md, tf, st) implies subtree_wf(
                store.pages@,
                store.leaf_cap(),
                store.internal_cap(),
                t0.metadata.root,
                t0.durable_height@,
                0,
                key_ub(),
                true,
            ) && subtree_entries(store.pages@, t0.metadata.root, t0.durable_height@)
                == t0.durable_entries() by {
                assert forall|j: int|
                    0 <= j < t0.pages.pages@.len() implies crate::node::node_views_eq(
                    #[trigger] t0.pages.pages@[j],
                    store.pages@[j],
                ) by {
                    assert(crate::node::node_views_eq(store.pages@[j], t0.pages.pages@[j]));
                }
                assert(store.leaf_cap() == t0.pages.leaf_cap());
                assert(store.internal_cap() == t0.pages.internal_cap());
                crate::node::lemma_subtree_views(
                    t0.pages.pages@,
                    store.pages@,
                    t0.pages.leaf_cap(),
                    t0.pages.internal_cap(),
                    t0.metadata.root,
                    t0.durable_height@,
                    0,
                    key_ub(),
                    true,
                );
            }
        }
        let h = match crate::storage::measure_height(
            &store.pages,
            metadata.root,
            Ghost(store.leaf_cap()),
            Ghost(store.internal_cap()),
        ) {
            Ok(h) => h,
            Err(e) => {
                proof {
                    assert forall|t0: BTree|
                        !Self::serialized_images_of(t0, md, tf, st) by {
                        if Self::serialized_images_of(t0, md, tf, st) {
                            assert(metadata.root == t0.metadata.root);
                            assert(subtree_wf(
                                store.pages@,
                                store.leaf_cap(),
                                store.internal_cap(),
                                metadata.root,
                                t0.durable_height@,
                                0,
                                key_ub(),
                                true,
                            ));
                            assert(t0.durable_height@ < store.pages@.len());
                            assert(t0.durable_height@ <= u32::MAX);
                        }
                    }
                }
                return Err(e);
            },
        };
        let cl = store.leaf_capacity();
        let ci = store.internal_capacity();
        if !crate::storage::check_subtree(
            &store.pages,
            cl,
            ci,
            metadata.root,
            h,
            0u128,
            0x1_0000_0000_0000_0000u128,
            true,
        ) {
            proof {
                assert forall|t0: BTree| !Self::serialized_images_of(t0, md, tf, st) by {
                    if Self::serialized_images_of(t0, md, tf, st) {
                        assert(metadata.root == t0.metadata.root);
                        assert(subtree_wf(
                            store.pages@,
                            store.leaf_cap(),
                            store.internal_cap(),
                            metadata.root,
                            t0.durable_height@,
                            0,
                            key_ub(),
                            true,
                        ));
                        assert(t0.durable_height@ < store.pages@.len());
                        assert(t0.durable_height@ <= u32::MAX);
                        assert(h as nat == t0.durable_height@);
                    }
                }
            }
            return Err(BTreeStoreError::CorruptedPage);
        }
        if (h as usize) >= store.len() {
            proof {
                assert forall|t0: BTree| !Self::serialized_images_of(t0, md, tf, st) by {
                    if Self::serialized_images_of(t0, md, tf, st) {
                        assert(h as nat == t0.durable_height@);
                        assert(t0.durable_height@ < store.pages@.len());
                    }
                }
            }
            return Err(BTreeStoreError::CorruptedPage);
        }
        let root = metadata.root;
        let transaction_manager = TransactionManager::new(root, Ghost(h as nat));
        let t = BTree {
            metadata,
            static_settings,
            pages: store,
            transaction_manager,
            durable_height: Ghost(h as nat),
        };
        proof {
            assert(t.pages.wf_subtree(t.metadata.root, h as nat, 0, key_ub(), true));
            assert forall|t0: BTree|
                #[trigger] Self::serialized_images_of(t0, md, tf, st) implies t.entries()
                == t0.durable_entries() && t.metadata.root == t0.metadata.root
                && t.static_settings == t0.static_settings by {
                assert(h as nat == t0.durable_height@);
                assert(t.metadata.root == t0.metadata.root);
            }
        }
        Ok(t)
    }

    /// The durable metadata image that a checkpoint must persist; a
    /// well-formed tree always serializes.
    pub fn serialize_metadata(&self) -> (r: Result<Vec<u8>, BTreeStoreError>)
        requires
            self.wf(),
        ensures
            match r {
                Ok(b) => {
                    &&& b@.len() == 12 + 4 * self.metadata.page_manager.free@.len()
                    &&& crate::codec::decode_u32(b@, 0) == self.metadata.root
                    &&& crate::codec::decode_u32(b@, 4) == self.metadata.page_manager.next_page
                    &&& crate::codec::decode_u32(b@, 8) == self.metadata.page_manager.free@.len()
                    &&& forall|i: int|
                        0 <= i < self.metadata.page_manager.free@.len()
                            ==> crate::codec::decode_u32(b@, 12 + 4 * i)
                            == self.metadata.page_manager.free@[i]
                },
                Err(_) => false,
            },
    {
        self.metadata.write()
    }

    /// The static settings image, written once at creation.
    pub fn serialize_static_settings(&self) -> (r: Vec<u8>)
        ensures
            r@.len() == 6,
            crate::codec::decode_u16(r@, 0) == self.static_settings.page_size,
            crate::codec::decode_u32(r@, 2) == self.static_settings.key_buffer_size,
    {
        self.static_settings.write()
    }

    /// The dense page image of the whole arena; a well-formed tree always
    /// serializes, since every page the tree ever installs fits one image.
    pub fn serialize_pages(&self) -> (r: Result<Vec<u8>, BTreeStoreError>)
        requires
            self.wf(),
        ensures
            match r {
                Ok(img) => {
                    &&& img@.len() == (self.pages.page_size as int) * self.pages.pages@.len()
                    &&& forall|i: int|
                        0 <= i < self.pages.pages@.len() ==> crate::storage::encodes_node(
                            img@,
                            (self.pages.page_size as int) * i,
                            self.pages.page_size as int,
                            #[trigger] self.pages.pages@[i],
                        )
                },
                Err(_) => false,
            },
    {
        let r = crate::storage::serialize_pages(&self.pages.pages, self.pages.page_size as usize);
        proof {
            if r is Err {
                let w = choose|w: int|
                    0 <= w < self.pages.pages@.len() && !crate::storage::node_fits(
                        #[trigger] self.pages.pages@[w],
                        self.pages.page_size as int,
                    );
                assert(crate::storage::node_fits(
                    self.pages.pages@[w],
                    self.pages.page_size as int,
                ));
            }
        }
        r
    }

    /// Law: the entries of a well-formed tree are strictly ascending in
    /// their keys; in particular no key appears twice.
    pub proof fn lemma_entries_sorted(self)
        requires
            self.wf(),
        ensures
            crate::node::entries_sorted(self.entries()),
    {
        lemma_wf_entries(
            self.pages.pages@,
            self.pages.leaf_cap(),
            self.pages.internal_cap(),
            self.transaction_manager.current_root,
            self.transaction_manager.height@,
            0,
            key_ub(),
            true,
        );
    }

    /// Ordered scan of the values whose keys lie in `[start, end)`. The
    /// iterator borrows a read transaction: it sees the root published at
    /// this call, whatever a writer does afterwards.
    pub fn range<'a>(&'a self, start: u64, end: u64) -> (it: crate::iterator::BTreeIterator<'a>)
        requires
            self.wf(),
        ensures
            it.wf_iter(),
            it.start == start,
            it.end == end,
            it.pages == &self.pages,
            exists|n: int|
                {
                    &&& 0 <= n <= self.entries().len()
                    &&& it.rem() == self.entries().skip(n)
                    &&& (forall|i: int| 0 <= i < n ==> (#[trigger] self.entries()[i]).0 < start)
                },
    {
        let read_transaction = self.transaction_manager.read_transaction();
        let it = crate::iterator::BTreeIterator::new(
            read_transaction,
            &self.pages,
            start,
            end,
            Ghost(self.transaction_manager.height@),
        );
        proof {
            let full = subtree_entries(
                self.pages.pages@,
                read_transaction.root,
                self.transaction_manager.height@,
            );
            assert(full == self.entries());
            let n = choose|n: int|
                {
                    &&& 0 <= n <= full.len()
                    &&& it.rem() == full.skip(n)
                    &&& (forall|i: int| 0 <= i < n ==> (#[trigger] full[i]).0 < start)
                };
            assert(0 <= n <= self.entries().len() && it.rem() == self.entries().skip(n) && (
            forall|i: int| 0 <= i < n ==> (#[trigger] self.entries()[i]).0 < start));
        }
        it
    }

    /// Delete `key` from the tree and publish the result; this does not
    /// make the change durable. A key absent from the tree is not an error
    /// and leaves every entry in place.
    pub fn delete(&mut self, key: &u64) -> (r: Result<(), BTreeStoreError>)
        requires
            old(self).wf(),
        ensures
            final(self).wf(),
            final(self).static_settings == old(self).static_settings,
            final(self).metadata.root == old(self).metadata.root,
            final(self).durable_entries() == old(self).durable_entries(),
            store_extends(final(self).pages, old(self).pages),
            match r {
                Ok(()) => {
                    &&& del_rel(old(self).entries(), final(self).entries(), *key)
                    &&& (!kv_has(old(self).entries(), *key) ==> final(self).entries() == old(self).entries())
                },
                Err(e) => {
                    &&& *final(self) == *old(self)
                    &&& e == BTreeStoreError::PageOutOfBounds
                    &&& old(self).pages.pages@.len() + 3 * (old(self).transaction_manager.height@
                        + 1) + 3 > u32::MAX
                },
            },
    {
        let ghost oldself = *self;
        let mut tx = self.transaction_manager.insert_transaction();
        let result = Self::delete_async(&mut self.pages, &mut tx, *key);
        match result {
            Ok(()) => {
                self.transaction_manager.commit(tx);
                self.metadata.page_manager.next_page = self.pages.len() as u32;
                proof {
                    lemma_subtree_prefix_stable(
                        oldself.pages.pages@,
                        self.pages.pages@,
                        oldself.pages.leaf_cap(),
                        oldself.pages.internal_cap(),
                        oldself.metadata.root,
                        oldself.durable_height@,
                        0,
                        key_ub(),
                        true,
                    );
                }
                Ok(())
            },
            Err(e) => Err(e),
        }
    }

    /// Rebuild a parent with the pointer to one rewritten child swapped in;
    /// the parent's occupancy is untouched, so no rebalance follows.
    pub fn replace_child_level(
        pages: &mut PageStore,
        tx: &mut WriteTransaction,
        f: Frame,
        nid: PageId,
        pkeys: &Vec<u64>,
        pchildren: &Vec<PageId>,
        key: u64,
        Ghost(s0): Ghost<PageStore>,
        Ghost(ph): Ghost<nat>,
        Ghost(plo): Ghost<int>,
        Ghost(phi): Ghost<int>,
        Ghost(par_is_root): Ghost<bool>,
    ) -> (r: Result<DelState, BTreeStoreError>)
        requires
            valid_page_size(s0.page_size),
            store_extends(*old(pages), s0),
            crate::storage::pages_fit(*old(pages)),
            old(pages).pages@.len() + 1 <= u32::MAX,
            (f.id as int) < s0.pages@.len(),
            s0.pages@[f.id as int] is Internal,
            pkeys@ == s0.pages@[f.id as int]->Internal_0.keys@,
            pchildren@ == s0.pages@[f.id as int]->Internal_0.children@,
            subtree_wf(s0.pages@, s0.leaf_cap(), s0.internal_cap(), f.id, ph, plo, phi, par_is_root),
            ph >= 1,
            (f.pos as int) < pchildren@.len(),
            child_lo(pkeys@, plo, f.pos as int) <= key as int,
            (key as int) < child_hi(pkeys@, phi, f.pos as int),
            old(pages).wf_subtree(
                nid,
                (ph - 1) as nat,
                child_lo(pkeys@, plo, f.pos as int),
                child_hi(pkeys@, phi, f.pos as int),
                false,
            ),
            del_rel(
                subtree_entries(s0.pages@, pchildren@[f.pos as int], (ph - 1) as nat),
                subtree_entries(old(pages).pages@, nid, (ph - 1) as nat),
                key,
            ),
        ensures
            store_extends(*final(pages), *old(pages)),
            crate::storage::pages_fit(*final(pages)),
            final(pages).pages@.len() <= old(pages).pages@.len() + 1,
            final(tx).root == old(tx).root,
            final(tx).version == old(tx).version,
            final(tx).height@ == old(tx).height@,
            match r {
                Ok(st) => del_prop_ok(
                    *final(pages),
                    subtree_entries(s0.pages@, f.id, ph),
                    ph,
                    plo,
                    phi,
                    par_is_root,
                    st,
                    key,
                ),
                Err(_) => false,
            },
    {
        let pos = f.pos;
        let ghost p1 = pages.pages@;
        let ghost cl = s0.leaf_cap();
        let ghost ci = s0.internal_cap();
        let ghost pk = pkeys@;
        let ghost pc = pchildren@;
        let ghost hc = (ph - 1) as nat;
        proof {
            assert(kids_wf(s0.pages@, cl, ci, pk, pc, hc, plo, phi));
            lemma_kids_replace_del(
                s0.pages@, p1, cl, ci, pk, pc, pos as int, nid, hc, plo, phi, key,
            );
        }
        let nn = InternalNode {
            keys: crate::arrayview::array_take(pkeys, pkeys.len()),
            children: crate::arrayview::array_set(pchildren, pos, nid),
        };
        let ghost nng = nn;
        proof {
            assert(nng.keys@ =~= pk);
        }
        let new_id = InsertBacktrack::add_new_node(pages, Node::Internal(nn));
        tx.freed.push(f.id);
        proof {
            let p2 = pages.pages@;
            assert(p2[new_id as int] == Node::Internal(nng));
            lemma_kids_stable_full(p1, p2, cl, ci, nng.keys@, nng.children@, hc, plo, phi);
            assert(subtree_wf(p2, cl, ci, new_id, ph, plo, phi, par_is_root));
            assert(subtree_entries(p2, new_id, ph) == kids_entries(p2, nng.children@, hc));
            assert(subtree_entries(s0.pages@, f.id, ph) == kids_entries(s0.pages@, pc, hc));
        }
        Ok(DelState::Replaced(new_id))
    }

    /// Repair an underfull leaf through its parent: borrow an entry from a
    /// sibling that can lend one, else merge with a sibling; the parent is
    /// rebuilt with the separator updated or removed.
    #[verifier::rlimit(100)]
    #[verifier::spinoff_prover]
    pub fn rebalance_leaf_level(
        pages: &mut PageStore,
        tx: &mut WriteTransaction,
        f: Frame,
        nd: LeafNode,
        pkeys: &Vec<u64>,
        pchildren: &Vec<PageId>,
        key: u64,
        lcap: usize,
        icap: usize,
        lmin: usize,
        imin: usize,
        Ghost(s0): Ghost<PageStore>,
        Ghost(ph): Ghost<nat>,
        Ghost(plo): Ghost<int>,
        Ghost(phi): Ghost<int>,
        Ghost(par_is_root): Ghost<bool>,
    ) -> (r: Result<DelState, BTreeStoreError>)
        requires
            valid_page_size(s0.page_size),
            lcap as int == s0.leaf_cap(),
            icap as int == s0.internal_cap(),
            lmin as int == crate::node::min_leaf(s0.leaf_cap()),
            imin as int == crate::node::min_internal(s0.internal_cap()),
            store_extends(*old(pages), s0),
            crate::storage::pages_fit(*old(pages)),
            old(pages).pages@.len() + 3 <= u32::MAX,
            (f.id as int) < s0.pages@.len(),
            s0.pages@[f.id as int] is Internal,
            pkeys@ == s0.pages@[f.id as int]->Internal_0.keys@,
            pchildren@ == s0.pages@[f.id as int]->Internal_0.children@,
            subtree_wf(s0.pages@, s0.leaf_cap(), s0.internal_cap(), f.id, ph, plo, phi, par_is_root),
            ph == 1,
            (f.pos as int) < pchildren@.len(),
            child_lo(pkeys@, plo, f.pos as int) <= key as int,
            (key as int) < child_hi(pkeys@, phi, f.pos as int),
            nd.values@.len() == nd.keys@.len(),
            nd.keys@.len() == crate::node::min_leaf(s0.leaf_cap()) - 1,
            crate::node::strict_sorted(nd.keys@),
            crate::node::keys_in_range(
                nd.keys@,
                child_lo(pkeys@, plo, f.pos as int),
                child_hi(pkeys@, phi, f.pos as int),
            ),
            del_rel(
                subtree_entries(s0.pages@, pchildren@[f.pos as int], 0),
                entry_seq(nd),
                key,
            ),
        ensures
            store_extends(*final(pages), *old(pages)),
            crate::storage::pages_fit(*final(pages)),
            final(pages).pages@.len() <= old(pages).pages@.len() + 3,
            final(tx).root == old(tx).root,
            final(tx).version == old(tx).version,
            final(tx).height@ == old(tx).height@,
            match r {
                Ok(st) => del_prop_ok(
                    *final(pages),
                    subtree_entries(s0.pages@, f.id, ph),
                    ph,
                    plo,
                    phi,
                    par_is_root,
                    st,
                    key,
                ),
                Err(_) => false,
            },
    {
        let pos = f.pos;
        let ghost cl = s0.leaf_cap();
        let ghost ci = s0.internal_cap();
        let ghost pk = pkeys@;
        let ghost pc = pchildren@;
        let ghost klo = child_lo(pk, plo, pos as int);
        let ghost khi = child_hi(pk, phi, pos as int);
        proof {
            assert(kids_wf(s0.pages@, cl, ci, pk, pc, 0, plo, phi));
        }
        let has_left = pos > 0;
        let has_right = pos + 1 < pchildren.len();
        let left_leaf = if has_left {
            proof {
                assert(subtree_wf(
                    s0.pages@, cl, ci, pc[pos - 1], 0, child_lo(pk, plo, pos as int - 1),
                    child_hi(pk, phi, pos as int - 1), false,
                ));
                assert(pages.pages@[pc[pos - 1] as int] == s0.pages@[pc[pos - 1] as int]);
            }
            match pages.get_page(pchildren[pos - 1]) {
                Node::Leaf(l) => clone_leaf(l),
                Node::Internal(_) => {
                    proof {
                        assert(false);
                    }
                    return Err(BTreeStoreError::CorruptedPage);
                },
            }
        } else {
            LeafNode { keys: Vec::new(), values: Vec::new() }
        };
        let right_leaf = if has_right {
            proof {
                assert(subtree_wf(
                    s0.pages@, cl, ci, pc[pos + 1], 0, child_lo(pk, plo, pos as int + 1),
                    child_hi(pk, phi, pos as int + 1), false,
                ));
                assert(pages.pages@[pc[pos + 1] as int] == s0.pages@[pc[pos + 1] as int]);
            }
            match pages.get_page(pchildren[pos + 1]) {
                Node::Leaf(l) => clone_leaf(l),
                Node::Internal(_) => {
                    proof {
                        assert(false);
                    }
                    return Err(BTreeStoreError::CorruptedPage);
                },
            }
        } else {
            LeafNode { keys: Vec::new(), values: Vec::new() }
        };
        proof {
            if has_left {
                let l0 = s0.pages@[pc[pos - 1] as int]->Leaf_0;
                assert(entry_seq(left_leaf) =~= entry_seq(l0));
            }
            if has_right {
                let r0 = s0.pages@[pc[pos + 1] as int]->Leaf_0;
                assert(entry_seq(right_leaf) =~= entry_seq(r0));
            }
        }
        let llen = left_leaf.keys.len();
        let rlen = right_leaf.keys.len();
        let decision = match rebalance_decision(has_left, llen, has_right, rlen, lmin) {
            Ok(d) => d,
            Err(_) => {
                proof {
                    assert(pc.len() >= 2);
                    assert(false);
                }
                return Err(BTreeStoreError::InvariantViolation);
            },
        };
        let ghost e0_child = subtree_entries(s0.pages@, pc[pos as int], 0);
        match decision {
            RebalanceResult::TakeFromLeft => {
                proof {
                    assert forall|i: int, j: int|
                        0 <= i < left_leaf.keys@.len() && 0 <= j < nd.keys@.len() implies
                        left_leaf.keys@[i] < nd.keys@[j] by {
                        assert((left_leaf.keys@[i] as int) < child_hi(pk, phi, pos as int - 1));
                        assert(child_hi(pk, phi, pos as int - 1) == klo);
                    }
                }
                let (ns, nleft, nself) = leaf_take_from_left(&left_leaf, &nd);
                let ghost gl = nleft;
                let ghost gs = nself;
                let aid = InsertBacktrack::add_new_node(pages, Node::Leaf(nleft));
                let bid = InsertBacktrack::add_new_node(pages, Node::Leaf(nself));
                proof {
                    let p2 = pages.pages@;
                    let x = pos as int - 1;
                    assert(p2[aid as int] == Node::Leaf(gl));
                    assert(p2[bid as int] == Node::Leaf(gs));
                    assert forall|i: int|
                        0 <= i < gl.keys@.len() implies child_lo(pk, plo, x)
                        <= #[trigger] gl.keys@[i] && (gl.keys@[i] as int) < ns as int by {
                        assert(gl.keys@[i] == left_leaf.keys@[i]);
                    }
                    assert forall|i: int|
                        0 <= i < gs.keys@.len() implies ns as int <= #[trigger] gs.keys@[i] && (
                        gs.keys@[i] as int) < khi by {
                        if i > 0 {
                            assert(gs.keys@[i] == nd.keys@[i - 1]);
                        } else {
                            assert(gs.keys@[0] == left_leaf.keys@[left_leaf.keys@.len() - 1]);
                            assert((gs.keys@[0] as int) < klo);
                        }
                    }
                    assert(subtree_wf(p2, cl, ci, aid, 0, child_lo(pk, plo, x), ns as int, false));
                    assert(subtree_wf(p2, cl, ci, bid, 0, ns as int, khi, false));
                    // entries relation of the pair
                    let pre = entry_seq(left_leaf);
                    lemma_del_rel_frame(
                        pre,
                        e0_child,
                        entry_seq(nd),
                        Seq::<(u64, u64)>::empty(),
                        key,
                        child_lo(pk, plo, x),
                        khi,
                    );
                    assert(pre + e0_child + Seq::<(u64, u64)>::empty() =~= pre + e0_child);
                    assert(pre + entry_seq(nd) + Seq::<(u64, u64)>::empty() =~= pre + entry_seq(
                        nd,
                    ));
                    assert(subtree_entries(p2, aid, 0) + subtree_entries(p2, bid, 0) =~= pre
                        + entry_seq(nd));
                    assert(subtree_entries(s0.pages@, pc[x], 0) =~= pre);
                    assert((ns as int) < khi);
                    assert(child_lo(pk, plo, x) < ns as int) by {
                        assert(left_leaf.keys@[0] < left_leaf.keys@[left_leaf.keys@.len() - 1]);
                    }
                    lemma_kids_borrow_del(
                        s0.pages@, p2, cl, ci, pk, pc, x, aid, bid, ns, 0, plo, phi, key,
                    );
                }
                let nn = InternalNode {
                    keys: crate::arrayview::array_set(&pkeys, pos - 1, ns),
                    children: crate::arrayview::array_set(
                        &crate::arrayview::array_set(&pchildren, pos - 1, aid),
                        pos,
                        bid,
                    ),
                };
                let ghost nng = nn;
                let ghost p2 = pages.pages@;
                let new_id = InsertBacktrack::add_new_node(pages, Node::Internal(nn));
                tx.freed.push(f.id);
                proof {
                    let p3 = pages.pages@;
                    assert(p3[new_id as int] == Node::Internal(nng));
                    assert(nng.keys@ == pk.update(pos as int - 1, ns));
                    assert(nng.children@ == pc.update(pos as int - 1, aid).update(pos as int, bid));
                    lemma_kids_stable_full(p2, p3, cl, ci, nng.keys@, nng.children@, 0, plo, phi);
                    assert(subtree_wf(p3, cl, ci, new_id, ph, plo, phi, par_is_root));
                    assert(subtree_entries(p3, new_id, ph) == kids_entries(p3, nng.children@, 0));
                    assert(subtree_entries(s0.pages@, f.id, ph) == kids_entries(s0.pages@, pc, 0));
                }
                Ok(DelState::Replaced(new_id))
            },
            RebalanceResult::TakeFromRight => {
                proof {
                    assert forall|i: int, j: int|
                        0 <= i < nd.keys@.len() && 0 <= j < right_leaf.keys@.len() implies
                        nd.keys@[i] < right_leaf.keys@[j] by {
                        assert(child_lo(pk, plo, pos as int + 1) == khi);
                        assert(child_lo(pk, plo, pos as int + 1) <= right_leaf.keys@[j]);
                    }
                }
                let (ns, nself, nright) = leaf_take_from_right(&nd, &right_leaf);
                let ghost gs = nself;
                let ghost gr = nright;
                let aid = InsertBacktrack::add_new_node(pages, Node::Leaf(nself));
                let bid = InsertBacktrack::add_new_node(pages, Node::Leaf(nright));
                proof {
                    let p2 = pages.pages@;
                    let x = pos as int;
                    let rhi = child_hi(pk, phi, x + 1);
                    assert(p2[aid as int] == Node::Leaf(gs));
                    assert(p2[bid as int] == Node::Leaf(gr));
                    assert forall|i: int|
                        0 <= i < gs.keys@.len() implies klo <= #[trigger] gs.keys@[i] && (
                        gs.keys@[i] as int) < ns as int by {
                        if i < nd.keys@.len() {
                            assert(gs.keys@[i] == nd.keys@[i]);
                        } else {
                            assert(gs.keys@[i] == right_leaf.keys@[0]);
                            assert(khi <= right_leaf.keys@[0]);
                            assert(klo < khi);
                        }
                    }
                    assert forall|i: int|
                        0 <= i < gr.keys@.len() implies ns as int <= #[trigger] gr.keys@[i] && (
                        gr.keys@[i] as int) < rhi by {
                        assert(gr.keys@[i] == right_leaf.keys@[i + 1]);
                    }
                    assert(subtree_wf(p2, cl, ci, aid, 0, klo, ns as int, false));
                    assert(subtree_wf(p2, cl, ci, bid, 0, ns as int, rhi, false));
                    let post = entry_seq(right_leaf);
                    lemma_del_rel_frame(
                        Seq::<(u64, u64)>::empty(),
                        e0_child,
                        entry_seq(nd),
                        post,
                        key,
                        klo,
                        rhi,
                    );
                    assert(Seq::<(u64, u64)>::empty() + e0_child + post =~= e0_child + post);
                    assert(Seq::<(u64, u64)>::empty() + entry_seq(nd) + post =~= entry_seq(nd)
                        + post);
                    assert(subtree_entries(p2, aid, 0) + subtree_entries(p2, bid, 0) =~= entry_seq(
                        nd,
                    ) + post);
                    assert(subtree_entries(s0.pages@, pc[x + 1], 0) =~= post);
                    assert(klo < ns as int) by {
                        assert(khi <= right_leaf.keys@[0]);
                        assert(right_leaf.keys@[0] < right_leaf.keys@[1]);
                        assert(klo < khi);
                    }
                    assert((ns as int) < rhi);
                    lemma_kids_borrow_del(
                        s0.pages@, p2, cl, ci, pk, pc, x, aid, bid, ns, 0, plo, phi, key,
                    );
                }
                let nn = InternalNode {
                    keys: crate::arrayview::array_set(&pkeys, pos, ns),
                    children: crate::arrayview::array_set(
                        &crate::arrayview::array_set(&pchildren, pos, aid),
                        pos + 1,
                        bid,
                    ),
                };
                let ghost nng = nn;
                let ghost p2 = pages.pages@;
                let new_id = InsertBacktrack::add_new_node(pages, Node::Internal(nn));
                tx.freed.push(f.id);
                proof {
                    let p3 = pages.pages@;
                    assert(p3[new_id as int] == Node::Internal(nng));
                    assert(nng.keys@ == pk.update(pos as int, ns));
                    assert(nng.children@ == pc.update(pos as int, aid).update(pos as int + 1, bid));
                    lemma_kids_stable_full(p2, p3, cl, ci, nng.keys@, nng.children@, 0, plo, phi);
                    assert(subtree_wf(p3, cl, ci, new_id, ph, plo, phi, par_is_root));
                    assert(subtree_entries(p3, new_id, ph) == kids_entries(p3, nng.children@, 0));
                    assert(subtree_entries(s0.pages@, f.id, ph) == kids_entries(s0.pages@, pc, 0));
                }
                Ok(DelState::Replaced(new_id))
            },
            RebalanceResult::MergeIntoLeft => {
                proof {
                    assert forall|i: int, j: int|
                        0 <= i < left_leaf.keys@.len() && 0 <= j < nd.keys@.len() implies
                        left_leaf.keys@[i] < nd.keys@[j] by {
                        assert((left_leaf.keys@[i] as int) < child_hi(pk, phi, pos as int - 1));
                        assert(child_hi(pk, phi, pos as int - 1) == klo);
                    }
                    assert(llen <= lmin);
                    assert(llen + nd.keys@.len() <= lcap);
                }
                let m = leaf_merge(&left_leaf, &nd);
                let ghost gm = m;
                let mid_id = InsertBacktrack::add_new_node(pages, Node::Leaf(m));
                proof {
                    let p2 = pages.pages@;
                    let x = pos as int - 1;
                    assert(p2[mid_id as int] == Node::Leaf(gm));
                    assert forall|i: int|
                        0 <= i < gm.keys@.len() implies child_lo(pk, plo, x)
                        <= #[trigger] gm.keys@[i] && (gm.keys@[i] as int) < khi by {
                        if i < left_leaf.keys@.len() {
                            assert(gm.keys@[i] == left_leaf.keys@[i]);
                            assert(klo < khi);
                        } else {
                            assert(gm.keys@[i] == nd.keys@[i - left_leaf.keys@.len()]);
                        }
                    }
                    assert(subtree_wf(p2, cl, ci, mid_id, 0, child_lo(pk, plo, x), khi, false));
                    let pre = entry_seq(left_leaf);
                    lemma_del_rel_frame(
                        pre,
                        e0_child,
                        entry_seq(nd),
                        Seq::<(u64, u64)>::empty(),
                        key,
                        child_lo(pk, plo, x),
                        khi,
                    );
                    assert(pre + e0_child + Seq::<(u64, u64)>::empty() =~= pre + e0_child);
                    assert(pre + entry_seq(nd) + Seq::<(u64, u64)>::empty() =~= pre + entry_seq(
                        nd,
                    ));
                    assert(subtree_entries(p2, mid_id, 0) =~= pre + entry_seq(nd));
                    assert(subtree_entries(s0.pages@, pc[x], 0) =~= pre);
                    lemma_kids_merge_del(
                        s0.pages@, p2, cl, ci, pk, pc, x, mid_id, 0, plo, phi, key,
                    );
                }
                let ptmp = InternalNode {
                    keys: crate::arrayview::array_take(pkeys, pkeys.len()),
                    children: crate::arrayview::array_set(&pchildren, pos - 1, mid_id),
                };
                proof {
                    assert(ptmp.keys@ =~= pk);
                }
                let st = internal_delete_key_children(&ptmp, pos - 1, icap);
                Self::finish_merge_parent(
                    pages,
                    tx,
                    f,
                    st,
                    Ghost(s0),
                    Ghost(ph),
                    Ghost(plo),
                    Ghost(phi),
                    Ghost(par_is_root),
                    Ghost(pos as int - 1),
                    Ghost(mid_id),
                    Ghost(0nat),
                    Ghost(key),
                )
            },
            RebalanceResult::MergeIntoSelf => {
                proof {
                    assert forall|i: int, j: int|
                        0 <= i < nd.keys@.len() && 0 <= j < right_leaf.keys@.len() implies
                        nd.keys@[i] < right_leaf.keys@[j] by {
                        assert(child_lo(pk, plo, pos as int + 1) == khi);
                        assert(child_lo(pk, plo, pos as int + 1) <= right_leaf.keys@[j]);
                    }
                    assert(rlen <= lmin);
                }
                let m = leaf_merge(&nd, &right_leaf);
                let ghost gm = m;
                let mid_id = InsertBacktrack::add_new_node(pages, Node::Leaf(m));
                proof {
                    let p2 = pages.pages@;
                    let x = pos as int;
                    let rhi = child_hi(pk, phi, x + 1);
                    assert(p2[mid_id as int] == Node::Leaf(gm));
                    assert forall|i: int|
                        0 <= i < gm.keys@.len() implies klo <= #[trigger] gm.keys@[i] && (
                        gm.keys@[i] as int) < rhi by {
                        if i < nd.keys@.len() {
                            assert(gm.keys@[i] == nd.keys@[i]);
                            assert(khi <= rhi) by {
                                assert(child_lo(pk, plo, x + 1) == khi);
                            }
                        } else {
                            assert(gm.keys@[i] == right_leaf.keys@[i - nd.keys@.len()]);
                            assert(klo < khi);
                        }
                    }
                    assert(subtree_wf(p2, cl, ci, mid_id, 0, klo, rhi, false));
                    let post = entry_seq(right_leaf);
                    lemma_del_rel_frame(
                        Seq::<(u64, u64)>::empty(),
                        e0_child,
                        entry_seq(nd),
                        post,
                        key,
                        klo,
                        rhi,
                    );
                    assert(Seq::<(u64, u64)>::empty() + e0_child + post =~= e0_child + post);
                    assert(Seq::<(u64, u64)>::empty() + entry_seq(nd) + post =~= entry_seq(nd)
                        + post);
                    assert(subtree_entries(p2, mid_id, 0) =~= entry_seq(nd) + post);
                    assert(subtree_entries(s0.pages@, pc[x + 1], 0) =~= post);
                    lemma_kids_merge_del(
                        s0.pages@, p2, cl, ci, pk, pc, x, mid_id, 0, plo, phi, key,
                    );
                }
                let ptmp = InternalNode {
                    keys: crate::arrayview::array_take(pkeys, pkeys.len()),
                    children: crate::arrayview::array_set(&pchildren, pos, mid_id),
                };
                proof {
                    assert(ptmp.keys@ =~= pk);
                }
                let st = internal_delete_key_children(&ptmp, pos, icap);
                Self::finish_merge_parent(
                    pages,
                    tx,
                    f,
                    st,
                    Ghost(s0),
                    Ghost(ph),
                    Ghost(plo),
                    Ghost(phi),
                    Ghost(par_is_root),
                    Ghost(pos as int),
                    Ghost(mid_id),
                    Ghost(0nat),
                    Ghost(key),
                )
            },
        }
    }

    /// Repair an underfull internal node through its parent: rotate a key
    /// and child through the parent separator from a sibling that can lend,
    /// else merge with a sibling around the separator.
    #[verifier::rlimit(100)]
    #[verifier::spinoff_prover]
    pub fn rebalance_internal_level(
        pages: &mut PageStore,
        tx: &mut WriteTransaction,
        f: Frame,
        nd: InternalNode,
        pkeys: &Vec<u64>,
        pchildren: &Vec<PageId>,
        key: u64,
        lcap: usize,
        icap: usize,
        lmin: usize,
        imin: usize,
        Ghost(s0): Ghost<PageStore>,
        Ghost(ph): Ghost<nat>,
        Ghost(plo): Ghost<int>,
        Ghost(phi): Ghost<int>,
        Ghost(par_is_root): Ghost<bool>,
    ) -> (r: Result<DelState, BTreeStoreError>)
        requires
            valid_page_size(s0.page_size),
            lcap as int == s0.leaf_cap(),
            icap as int == s0.internal_cap(),
            lmin as int == crate::node::min_leaf(s0.leaf_cap()),
            imin as int == crate::node::min_internal(s0.internal_cap()),
            store_extends(*old(pages), s0),
            crate::storage::pages_fit(*old(pages)),
            old(pages).pages@.len() + 3 <= u32::MAX,
            (f.id as int) < s0.pages@.len(),
            s0.pages@[f.id as int] is Internal,
            pkeys@ == s0.pages@[f.id as int]->Internal_0.keys@,
            pchildren@ == s0.pages@[f.id as int]->Internal_0.children@,
            subtree_wf(s0.pages@, s0.leaf_cap(), s0.internal_cap(), f.id, ph, plo, phi, par_is_root),
            ph >= 2,
            (f.pos as int) < pchildren@.len(),
            child_lo(pkeys@, plo, f.pos as int) <= key as int,
            (key as int) < child_hi(pkeys@, phi, f.pos as int),
            nd.children@.len() == nd.keys@.len() + 1,
            nd.keys@.len() == crate::node::min_internal(s0.internal_cap()) - 1,
            crate::node::strict_sorted(nd.keys@),
            crate::node::keys_in_range(
                nd.keys@,
                child_lo(pkeys@, plo, f.pos as int),
                child_hi(pkeys@, phi, f.pos as int),
            ),
            kids_wf(
                old(pages).pages@,
                s0.leaf_cap(),
                s0.internal_cap(),
                nd.keys@,
                nd.children@,
                (ph - 2) as nat,
                child_lo(pkeys@, plo, f.pos as int),
                child_hi(pkeys@, phi, f.pos as int),
            ),
            del_rel(
                subtree_entries(s0.pages@, pchildren@[f.pos as int], (ph - 1) as nat),
                kids_entries(old(pages).pages@, nd.children@, (ph - 2) as nat),
                key,
            ),
        ensures
            store_extends(*final(pages), *old(pages)),
            crate::storage::pages_fit(*final(pages)),
            final(pages).pages@.len() <= old(pages).pages@.len() + 3,
            final(tx).root == old(tx).root,
            final(tx).version == old(tx).version,
            final(tx).height@ == old(tx).height@,
            match r {
                Ok(st) => del_prop_ok(
                    *final(pages),
                    subtree_entries(s0.pages@, f.id, ph),
                    ph,
                    plo,
                    phi,
                    par_is_root,
                    st,
                    key,
                ),
                Err(_) => false,
            },
    {
        let pos = f.pos;
        let ghost p0v = pages.pages@;
        let ghost cl = s0.leaf_cap();
        let ghost ci = s0.internal_cap();
        let ghost pk = pkeys@;
        let ghost pc = pchildren@;
        let ghost hc = (ph - 1) as nat;
        let ghost hg = (ph - 2) as nat;
        let ghost klo = child_lo(pk, plo, pos as int);
        let ghost khi = child_hi(pk, phi, pos as int);
        proof {
            assert(kids_wf(s0.pages@, cl, ci, pk, pc, hc, plo, phi));
        }
        let has_left = pos > 0;
        let has_right = pos + 1 < pchildren.len();
        let left_node = if has_left {
            proof {
                assert(subtree_wf(
                    s0.pages@, cl, ci, pc[pos - 1], hc, child_lo(pk, plo, pos as int - 1),
                    child_hi(pk, phi, pos as int - 1), false,
                ));
                assert(pages.pages@[pc[pos - 1] as int] == s0.pages@[pc[pos - 1] as int]);
            }
            match pages.get_page(pchildren[pos - 1]) {
                Node::Internal(n) => clone_internal(n),
                Node::Leaf(_) => {
                    proof {
                        assert(false);
                    }
                    return Err(BTreeStoreError::CorruptedPage);
                },
            }
        } else {
            InternalNode { keys: Vec::new(), children: Vec::new() }
        };
        let right_node = if has_right {
            proof {
                assert(subtree_wf(
                    s0.pages@, cl, ci, pc[pos + 1], hc, child_lo(pk, plo, pos as int + 1),
                    child_hi(pk, phi, pos as int + 1), false,
                ));
                assert(pages.pages@[pc[pos + 1] as int] == s0.pages@[pc[pos + 1] as int]);
            }
            match pages.get_page(pchildren[pos + 1]) {
                Node::Internal(n) => clone_internal(n),
                Node::Leaf(_) => {
                    proof {
                        assert(false);
                    }
                    return Err(BTreeStoreError::CorruptedPage);
                },
            }
        } else {
            InternalNode { keys: Vec::new(), children: Vec::new() }
        };
        proof {
            if has_left {
                let l0 = s0.pages@[pc[pos - 1] as int]->Internal_0;
                assert(left_node.keys@ == l0.keys@);
                assert(left_node.children@ == l0.children@);
                lemma_kids_stable_full(
                    s0.pages@, pages.pages@, cl, ci, l0.keys@, l0.children@, hg,
                    child_lo(pk, plo, pos as int - 1), child_hi(pk, phi, pos as int - 1),
                );
                assert(subtree_entries(s0.pages@, pc[pos - 1], hc) == kids_entries(
                    pages.pages@,
                    left_node.children@,
                    hg,
                ));
            }
            if has_right {
                let r0 = s0.pages@[pc[pos + 1] as int]->Internal_0;
                assert(right_node.keys@ == r0.keys@);
                assert(right_node.children@ == r0.children@);
                lemma_kids_stable_full(
                    s0.pages@, pages.pages@, cl, ci, r0.keys@, r0.children@, hg,
                    child_lo(pk, plo, pos as int + 1), child_hi(pk, phi, pos as int + 1),
                );
                assert(subtree_entries(s0.pages@, pc[pos + 1], hc) == kids_entries(
                    pages.pages@,
                    right_node.children@,
                    hg,
                ));
            }
        }
        let llen = left_node.keys.len();
        let rlen = right_node.keys.len();
        let decision = match rebalance_decision(has_left, llen, has_right, rlen, imin) {
            Ok(d) => d,
            Err(_) => {
                proof {
                    assert(pc.len() >= 2);
                    assert(false);
                }
                return Err(BTreeStoreError::InvariantViolation);
            },
        };
        let ghost e0_child = subtree_entries(s0.pages@, pc[pos as int], hc);
        match decision {
            RebalanceResult::TakeFromLeft => Self::internal_take_left_level(
                pages, tx, f, nd, left_node, pkeys, pchildren, key, lcap, icap, lmin, imin,
                Ghost(s0), Ghost(ph), Ghost(plo), Ghost(phi), Ghost(par_is_root),
            ),
            RebalanceResult::TakeFromRight => Self::internal_take_right_level(
                pages, tx, f, nd, right_node, pkeys, pchildren, key, lcap, icap, lmin, imin,
                Ghost(s0), Ghost(ph), Ghost(plo), Ghost(phi), Ghost(par_is_root),
            ),
            RebalanceResult::MergeIntoLeft => Self::internal_merge_left_level(
                pages, tx, f, nd, left_node, pkeys, pchildren, key, lcap, icap, lmin, imin,
                Ghost(s0), Ghost(ph), Ghost(plo), Ghost(phi), Ghost(par_is_root),
            ),
            RebalanceResult::MergeIntoSelf => Self::internal_merge_right_level(
                pages, tx, f, nd, right_node, pkeys, pchildren, key, lcap, icap, lmin, imin,
                Ghost(s0), Ghost(ph), Ghost(plo), Ghost(phi), Ghost(par_is_root),
            ),
        }
    }


    /// One repair case of an underfull internal node, split out so each
    /// carries its own proof budget.
    #[verifier::rlimit(100)]
    #[verifier::spinoff_prover]
    pub fn internal_take_left_level(
        pages: &mut PageStore,
        tx: &mut WriteTransaction,
        f: Frame,
        nd: InternalNode,
        left_node: InternalNode,
        pkeys: &Vec<u64>,
        pchildren: &Vec<PageId>,
        key: u64,
        lcap: usize,
        icap: usize,
        lmin: usize,
        imin: usize,
        Ghost(s0): Ghost<PageStore>,
        Ghost(ph): Ghost<nat>,
        Ghost(plo): Ghost<int>,
        Ghost(phi): Ghost<int>,
        Ghost(par_is_root): Ghost<bool>,
    ) -> (r: Result<DelState, BTreeStoreError>)
        requires
            valid_page_size(s0.page_size),
            lcap as int == s0.leaf_cap(),
            icap as int == s0.internal_cap(),
            lmin as int == crate::node::min_leaf(s0.leaf_cap()),
            imin as int == crate::node::min_internal(s0.internal_cap()),
            store_extends(*old(pages), s0),
            crate::storage::pages_fit(*old(pages)),
            old(pages).pages@.len() + 3 <= u32::MAX,
            (f.id as int) < s0.pages@.len(),
            s0.pages@[f.id as int] is Internal,
            pkeys@ == s0.pages@[f.id as int]->Internal_0.keys@,
            pchildren@ == s0.pages@[f.id as int]->Internal_0.children@,
            subtree_wf(s0.pages@, s0.leaf_cap(), s0.internal_cap(), f.id, ph, plo, phi, par_is_root),
            ph >= 2,
            (f.pos as int) < pchildren@.len(),
            child_lo(pkeys@, plo, f.pos as int) <= key as int,
            (key as int) < child_hi(pkeys@, phi, f.pos as int),
            nd.children@.len() == nd.keys@.len() + 1,
            nd.keys@.len() == crate::node::min_internal(s0.internal_cap()) - 1,
            crate::node::strict_sorted(nd.keys@),
            crate::node::keys_in_range(
                nd.keys@,
                child_lo(pkeys@, plo, f.pos as int),
                child_hi(pkeys@, phi, f.pos as int),
            ),
            kids_wf(
                old(pages).pages@,
                s0.leaf_cap(),
                s0.internal_cap(),
                nd.keys@,
                nd.children@,
                (ph - 2) as nat,
                child_lo(pkeys@, plo, f.pos as int),
                child_hi(pkeys@, phi, f.pos as int),
            ),
            del_rel(
                subtree_entries(s0.pages@, pchildren@[f.pos as int], (ph - 1) as nat),
                kids_entries(old(pages).pages@, nd.children@, (ph - 2) as nat),
                key,
            ),
            f.pos >= 1,
            left_node.keys@ == s0.pages@[pchildren@[f.pos as int - 1] as int]->Internal_0.keys@,
            left_node.children@ == s0.pages@[pchildren@[f.pos as int - 1] as int]->Internal_0.children@,
            left_node.keys@.len() > imin,
        ensures
            store_extends(*final(pages), *old(pages)),
            crate::storage::pages_fit(*final(pages)),
            final(pages).pages@.len() <= old(pages).pages@.len() + 3,
            final(tx).root == old(tx).root,
            final(tx).version == old(tx).version,
            final(tx).height@ == old(tx).height@,
            match r {
                Ok(st) => del_prop_ok(
                    *final(pages),
                    subtree_entries(s0.pages@, f.id, ph),
                    ph,
                    plo,
                    phi,
                    par_is_root,
                    st,
                    key,
                ),
                Err(_) => false,
            },
    {
        let pos = f.pos;
        let ghost p0v = pages.pages@;
        let ghost cl = s0.leaf_cap();
        let ghost ci = s0.internal_cap();
        let ghost pk = pkeys@;
        let ghost pc = pchildren@;
        let ghost hc = (ph - 1) as nat;
        let ghost hg = (ph - 2) as nat;
        let ghost klo = child_lo(pk, plo, pos as int);
        let ghost khi = child_hi(pk, phi, pos as int);
        proof {
            assert(kids_wf(s0.pages@, cl, ci, pk, pc, hc, plo, phi));
        }
        let ghost e0_child = subtree_entries(s0.pages@, pc[pos as int], hc);
        proof {
            assert(subtree_wf(
                s0.pages@, cl, ci, pc[pos - 1], hc, child_lo(pk, plo, pos as int - 1),
                child_hi(pk, phi, pos as int - 1), false,
            ));
            let l0 = s0.pages@[pc[pos - 1] as int]->Internal_0;
            lemma_kids_stable_full(
                s0.pages@, pages.pages@, cl, ci, l0.keys@, l0.children@, hg,
                child_lo(pk, plo, pos as int - 1), child_hi(pk, phi, pos as int - 1),
            );
            assert(subtree_entries(s0.pages@, pc[pos - 1], hc) == kids_entries(
                pages.pages@,
                left_node.children@,
                hg,
            ));
        }
            let sep = pkeys[pos - 1];
            proof {
                assert(sep as int == klo);
                assert forall|i: int|
                    0 <= i < left_node.keys@.len() implies left_node.keys@[i] < sep by {}
                if nd.keys@.len() > 0 {
                    assert(subtree_wf(
                        pages.pages@, cl, ci, nd.children@[0], hg, klo,
                        child_hi(nd.keys@, khi, 0), false,
                    ));
                    lemma_wf_entries(
                        pages.pages@, cl, ci, nd.children@[0], hg, klo,
                        child_hi(nd.keys@, khi, 0), false,
                    );
                    let es = subtree_entries(pages.pages@, nd.children@[0], hg);
                    assert(es.len() >= 1);
                    assert(klo <= es[0].0);
                    assert((es[0].0 as int) < nd.keys@[0]);
                }
                assert forall|i: int| 0 <= i < nd.keys@.len() implies nd.keys@[i] > sep by {}
            }
            let (ns, nleft, nself) = internal_take_from_left(&left_node, &nd, sep);
            let ghost gl = nleft;
            let ghost gs = nself;
            proof {
                let lx = pos as int - 1;
                let llo = child_lo(pk, plo, lx);
                lemma_rotate_left_kids(
                    pages.pages@, cl, ci, left_node.keys@, left_node.children@, nd.keys@,
                    nd.children@, hg, llo, sep, khi,
                );
            }
            let aid = InsertBacktrack::add_new_node(pages, Node::Internal(nleft));
            let bid = InsertBacktrack::add_new_node(pages, Node::Internal(nself));
            proof {
                let p2 = pages.pages@;
                let lx = pos as int - 1;
                let llo = child_lo(pk, plo, lx);
                assert(p2[aid as int] == Node::Internal(gl));
                assert(p2[bid as int] == Node::Internal(gs));
                lemma_kids_stable_full(
                    p0v, p2, cl, ci, gl.keys@, gl.children@, hg, llo,
                    ns as int,
                );
                lemma_kids_stable_full(
                    p0v, p2, cl, ci, gs.keys@, gs.children@, hg,
                    ns as int, khi,
                );
                assert(subtree_wf(p2, cl, ci, aid, hc, llo, ns as int, false));
                assert(subtree_wf(p2, cl, ci, bid, hc, ns as int, khi, false));
                let pre = subtree_entries(s0.pages@, pc[lx], hc);
                lemma_wf_entries(s0.pages@, cl, ci, pc[lx], hc, llo, klo, false);
                lemma_del_rel_frame(
                    pre, e0_child, kids_entries(p0v, nd.children@, hg),
                    Seq::<(u64, u64)>::empty(), key, llo, khi,
                );
                assert(pre + e0_child + Seq::<(u64, u64)>::empty() =~= pre + e0_child);
                assert(pre + kids_entries(p0v, nd.children@, hg)
                    + Seq::<(u64, u64)>::empty() =~= pre + kids_entries(p0v, nd.children@, hg));
                assert(subtree_entries(p2, aid, hc) + subtree_entries(p2, bid, hc) =~= pre
                    + kids_entries(p0v, nd.children@, hg));
                assert(llo < ns as int) by {
                    assert(left_node.keys@[0] < left_node.keys@[left_node.keys@.len() - 1]);
                    assert(llo <= left_node.keys@[0]);
                }
                assert((ns as int) < khi) by {
                    assert((left_node.keys@[left_node.keys@.len() - 1] as int) < klo);
                    assert(klo < khi);
                }
                lemma_kids_borrow_del(
                    s0.pages@, p2, cl, ci, pk, pc, lx, aid, bid, ns, hc, plo, phi, key,
                );
            }
            let nn = InternalNode {
                keys: crate::arrayview::array_set(&pkeys, pos - 1, ns),
                children: crate::arrayview::array_set(
                    &crate::arrayview::array_set(&pchildren, pos - 1, aid),
                    pos,
                    bid,
                ),
            };
            let ghost nng = nn;
            let ghost p2 = pages.pages@;
            let new_id = InsertBacktrack::add_new_node(pages, Node::Internal(nn));
            tx.freed.push(f.id);
            proof {
                let p3 = pages.pages@;
                assert(p3[new_id as int] == Node::Internal(nng));
                assert(nng.keys@ == pk.update(pos as int - 1, ns));
                assert(nng.children@ == pc.update(pos as int - 1, aid).update(pos as int, bid));
                lemma_kids_stable_full(p2, p3, cl, ci, nng.keys@, nng.children@, hc, plo, phi);
                assert(subtree_wf(p3, cl, ci, new_id, ph, plo, phi, par_is_root));
                assert(subtree_entries(p3, new_id, ph) == kids_entries(p3, nng.children@, hc));
                assert(subtree_entries(s0.pages@, f.id, ph) == kids_entries(s0.pages@, pc, hc));
            }
            Ok(DelState::Replaced(new_id))
    }

    /// One repair case of an underfull internal node, split out so each
    /// carries its own proof budget.
    #[verifier::rlimit(100)]
    #[verifier::spinoff_prover]
    pub fn internal_take_right_level(
        pages: &mut PageStore,
        tx: &mut WriteTransaction,
        f: Frame,
        nd: InternalNode,
        right_node: InternalNode,
        pkeys: &Vec<u64>,
        pchildren: &Vec<PageId>,
        key: u64,
        lcap: usize,
        icap: usize,
        lmin: usize,
        imin: usize,
        Ghost(s0): Ghost<PageStore>,
        Ghost(ph): Ghost<nat>,
        Ghost(plo): Ghost<int>,
        Ghost(phi): Ghost<int>,
        Ghost(par_is_root): Ghost<bool>,
    ) -> (r: Result<DelState, BTreeStoreError>)
        requires
            valid_page_size(s0.page_size),
            lcap as int == s0.leaf_cap(),
            icap as int == s0.internal_cap(),
            lmin as int == crate::node::min_leaf(s0.leaf_cap()),
            imin as int == crate::node::min_internal(s0.internal_cap()),
            store_extends(*old(pages), s0),
            crate::storage::pages_fit(*old(pages)),
            old(pages).pages@.len() + 3 <= u32::MAX,
            (f.id as int) < s0.pages@.len(),
            s0.pages@[f.id as int] is Internal,
            pkeys@ == s0.pages@[f.id as int]->Internal_0.keys@,
            pchildren@ == s0.pages@[f.id as int]->Internal_0.children@,
            subtree_wf(s0.pages@, s0.leaf_cap(), s0.internal_cap(), f.id, ph, plo, phi, par_is_root),
            ph >= 2,
            (f.pos as int) < pchildren@.len(),
            child_lo(pkeys@, plo, f.pos as int) <= key as int,
            (key as int) < child_hi(pkeys@, phi, f.pos as int),
            nd.children@.len() == nd.keys@.len() + 1,
            nd.keys@.len() == crate::node::min_internal(s0.internal_cap()) - 1,
            crate::node::strict_sorted(nd.keys@),
            crate::node::keys_in_range(
                nd.keys@,
                child_lo(pkeys@, plo, f.pos as int),
                child_hi(pkeys@, phi, f.pos as int),
            ),
            kids_wf(
                old(pages).pages@,
                s0.leaf_cap(),
                s0.internal_cap(),
                nd.keys@,
                nd.children@,
                (ph - 2) as nat,
                child_lo(pkeys@, plo, f.pos as int),
                child_hi(pkeys@, phi, f.pos as int),
            ),
            del_rel(
                subtree_entries(s0.pages@, pchildren@[f.pos as int], (ph - 1) as nat),
                kids_entries(old(pages).pages@, nd.children@, (ph - 2) as nat),
                key,
            ),
            f.pos as int + 1 < pchildren@.len(),
            right_node.keys@ == s0.pages@[pchildren@[f.pos as int + 1] as int]->Internal_0.keys@,
            right_node.children@ == s0.pages@[pchildren@[f.pos as int + 1] as int]->Internal_0.children@,
            right_node.keys@.len() > imin,
        ensures
            store_extends(*final(pages), *old(pages)),
            crate::storage::pages_fit(*final(pages)),
            final(pages).pages@.len() <= old(pages).pages@.len() + 3,
            final(tx).root == old(tx).root,
            final(tx).version == old(tx).version,
            final(tx).height@ == old(tx).height@,
            match r {
                Ok(st) => del_prop_ok(
                    *final(pages),
                    subtree_entries(s0.pages@, f.id, ph),
                    ph,
                    plo,
                    phi,
                    par_is_root,
                    st,
                    key,
                ),
                Err(_) => false,
            },
    {
        let pos = f.pos;
        let ghost p0v = pages.pages@;
        let ghost cl = s0.leaf_cap();
        let ghost ci = s0.internal_cap();
        let ghost pk = pkeys@;
        let ghost pc = pchildren@;
        let ghost hc = (ph - 1) as nat;
        let ghost hg = (ph - 2) as nat;
        let ghost klo = child_lo(pk, plo, pos as int);
        let ghost khi = child_hi(pk, phi, pos as int);
        proof {
            assert(kids_wf(s0.pages@, cl, ci, pk, pc, hc, plo, phi));
        }
        let ghost e0_child = subtree_entries(s0.pages@, pc[pos as int], hc);
        proof {
            assert(subtree_wf(
                s0.pages@, cl, ci, pc[pos + 1], hc, child_lo(pk, plo, pos as int + 1),
                child_hi(pk, phi, pos as int + 1), false,
            ));
            let r0 = s0.pages@[pc[pos + 1] as int]->Internal_0;
            lemma_kids_stable_full(
                s0.pages@, pages.pages@, cl, ci, r0.keys@, r0.children@, hg,
                child_lo(pk, plo, pos as int + 1), child_hi(pk, phi, pos as int + 1),
            );
            assert(subtree_entries(s0.pages@, pc[pos + 1], hc) == kids_entries(
                pages.pages@,
                right_node.children@,
                hg,
            ));
        }
            let sep = pkeys[pos];
            proof {
                assert(sep as int == khi);
                assert forall|i: int| 0 <= i < nd.keys@.len() implies nd.keys@[i] < sep by {}
                assert(pages.pages@[pc[pos + 1] as int] == s0.pages@[pc[pos + 1] as int]);
                lemma_internal_first_key_gap(
                    s0.pages@, cl, ci, pc[pos + 1], hc, khi, child_hi(pk, phi, pos as int + 1),
                    false,
                );
                assert forall|i: int|
                    0 <= i < right_node.keys@.len() implies right_node.keys@[i] > sep by {
                    assert(right_node.keys@[0] > sep);
                }
            }
            let (ns, nself, nright) = internal_take_from_right(&nd, &right_node, sep);
            let ghost gs = nself;
            let ghost gr = nright;
            proof {
                let rhi = child_hi(pk, phi, pos as int + 1);
                lemma_rotate_right_kids(
                    pages.pages@, cl, ci, nd.keys@, nd.children@, right_node.keys@,
                    right_node.children@, hg, klo, sep, rhi,
                );
            }
            let aid = InsertBacktrack::add_new_node(pages, Node::Internal(nself));
            let bid = InsertBacktrack::add_new_node(pages, Node::Internal(nright));
            proof {
                let p2 = pages.pages@;
                let rhi = child_hi(pk, phi, pos as int + 1);
                assert(p2[aid as int] == Node::Internal(gs));
                assert(p2[bid as int] == Node::Internal(gr));
                lemma_kids_stable_full(
                    p0v, p2, cl, ci, gs.keys@, gs.children@, hg, klo,
                    ns as int,
                );
                lemma_kids_stable_full(
                    p0v, p2, cl, ci, gr.keys@, gr.children@, hg,
                    ns as int, rhi,
                );
                assert(subtree_wf(p2, cl, ci, aid, hc, klo, ns as int, false));
                assert(subtree_wf(p2, cl, ci, bid, hc, ns as int, rhi, false));
                let post = subtree_entries(s0.pages@, pc[pos as int + 1], hc);
                lemma_wf_entries(s0.pages@, cl, ci, pc[pos as int + 1], hc, khi, rhi, false);
                lemma_del_rel_frame(
                    Seq::<(u64, u64)>::empty(), e0_child,
                    kids_entries(p0v, nd.children@, hg), post, key,
                    klo, rhi,
                );
                assert(Seq::<(u64, u64)>::empty() + e0_child + post =~= e0_child + post);
                assert(Seq::<(u64, u64)>::empty() + kids_entries(
                    p0v,
                    nd.children@,
                    hg,
                ) + post =~= kids_entries(p0v, nd.children@, hg) + post);
                assert(subtree_entries(p2, aid, hc) + subtree_entries(p2, bid, hc)
                    =~= kids_entries(p0v, nd.children@, hg) + post);
                assert(klo < ns as int) by {
                    assert(klo < khi);
                    assert((ns as int) > sep as int);
                }
                assert((ns as int) < rhi);
                lemma_kids_borrow_del(
                    s0.pages@, p2, cl, ci, pk, pc, pos as int, aid, bid, ns, hc, plo, phi,
                    key,
                );
            }
            let nn = InternalNode {
                keys: crate::arrayview::array_set(&pkeys, pos, ns),
                children: crate::arrayview::array_set(
                    &crate::arrayview::array_set(&pchildren, pos, aid),
                    pos + 1,
                    bid,
                ),
            };
            let ghost nng = nn;
            let ghost p2 = pages.pages@;
            let new_id = InsertBacktrack::add_new_node(pages, Node::Internal(nn));
            tx.freed.push(f.id);
            proof {
                let p3 = pages.pages@;
                assert(p3[new_id as int] == Node::Internal(nng));
                assert(nng.keys@ == pk.update(pos as int, ns));
                assert(nng.children@ == pc.update(pos as int, aid).update(pos as int + 1, bid));
                lemma_kids_stable_full(p2, p3, cl, ci, nng.keys@, nng.children@, hc, plo, phi);
                assert(subtree_wf(p3, cl, ci, new_id, ph, plo, phi, par_is_root));
                assert(subtree_entries(p3, new_id, ph) == kids_entries(p3, nng.children@, hc));
                assert(subtree_entries(s0.pages@, f.id, ph) == kids_entries(s0.pages@, pc, hc));
            }
            Ok(DelState::Replaced(new_id))
    }

    /// One repair case of an underfull internal node, split out so each
    /// carries its own proof budget.
    #[verifier::rlimit(100)]
    #[verifier::spinoff_prover]
    pub fn internal_merge_left_level(
        pages: &mut PageStore,
        tx: &mut WriteTransaction,
        f: Frame,
        nd: InternalNode,
        left_node: InternalNode,
        pkeys: &Vec<u64>,
        pchildren: &Vec<PageId>,
        key: u64,
        lcap: usize,
        icap: usize,
        lmin: usize,
        imin: usize,
        Ghost(s0): Ghost<PageStore>,
        Ghost(ph): Ghost<nat>,
        Ghost(plo): Ghost<int>,
        Ghost(phi): Ghost<int>,
        Ghost(par_is_root): Ghost<bool>,
    ) -> (r: Result<DelState, BTreeStoreError>)
        requires
            valid_page_size(s0.page_size),
            lcap as int == s0.leaf_cap(),
            icap as int == s0.internal_cap(),
            lmin as int == crate::node::min_leaf(s0.leaf_cap()),
            imin as int == crate::node::min_internal(s0.internal_cap()),
            store_extends(*old(pages), s0),
            crate::storage::pages_fit(*old(pages)),
            old(pages).pages@.len() + 3 <= u32::MAX,
            (f.id as int) < s0.pages@.len(),
            s0.pages@[f.id as int] is Internal,
            pkeys@ == s0.pages@[f.id as int]->Internal_0.keys@,
            pchildren@ == s0.pages@[f.id as int]->Internal_0.children@,
            subtree_wf(s0.pages@, s0.leaf_cap(), s0.internal_cap(), f.id, ph, plo, phi, par_is_root),
            ph >= 2,
            (f.pos as int) < pchildren@.len(),
            child_lo(pkeys@, plo, f.pos as int) <= key as int,
            (key as int) < child_hi(pkeys@, phi, f.pos as int),
            nd.children@.len() == nd.keys@.len() + 1,
            nd.keys@.len() == crate::node::min_internal(s0.internal_cap()) - 1,
            crate::node::strict_sorted(nd.keys@),
            crate::node::keys_in_range(
                nd.keys@,
                child_lo(pkeys@, plo, f.pos as int),
                child_hi(pkeys@, phi, f.pos as int),
            ),
            kids_wf(
                old(pages).pages@,
                s0.leaf_cap(),
                s0.internal_cap(),
                nd.keys@,
                nd.children@,
                (ph - 2) as nat,
                child_lo(pkeys@, plo, f.pos as int),
                child_hi(pkeys@, phi, f.pos as int),
            ),
            del_rel(
                subtree_entries(s0.pages@, pchildren@[f.pos as int], (ph - 1) as nat),
                kids_entries(old(pages).pages@, nd.children@, (ph - 2) as nat),
                key,
            ),
            f.pos >= 1,
            left_node.keys@ == s0.pages@[pchildren@[f.pos as int - 1] as int]->Internal_0.keys@,
            left_node.children@ == s0.pages@[pchildren@[f.pos as int - 1] as int]->Internal_0.children@,
            left_node.keys@.len() <= imin,
        ensures
            store_extends(*final(pages), *old(pages)),
            crate::storage::pages_fit(*final(pages)),
            final(pages).pages@.len() <= old(pages).pages@.len() + 3,
            final(tx).root == old(tx).root,
            final(tx).version == old(tx).version,
            final(tx).height@ == old(tx).height@,
            match r {
                Ok(st) => del_prop_ok(
                    *final(pages),
                    subtree_entries(s0.pages@, f.id, ph),
                    ph,
                    plo,
                    phi,
                    par_is_root,
                    st,
                    key,
                ),
                Err(_) => false,
            },
    {
        let pos = f.pos;
        let ghost p0v = pages.pages@;
        let ghost cl = s0.leaf_cap();
        let ghost ci = s0.internal_cap();
        let ghost pk = pkeys@;
        let ghost pc = pchildren@;
        let ghost hc = (ph - 1) as nat;
        let ghost hg = (ph - 2) as nat;
        let ghost klo = child_lo(pk, plo, pos as int);
        let ghost khi = child_hi(pk, phi, pos as int);
        proof {
            assert(kids_wf(s0.pages@, cl, ci, pk, pc, hc, plo, phi));
        }
        let ghost e0_child = subtree_entries(s0.pages@, pc[pos as int], hc);
        proof {
            assert(subtree_wf(
                s0.pages@, cl, ci, pc[pos - 1], hc, child_lo(pk, plo, pos as int - 1),
                child_hi(pk, phi, pos as int - 1), false,
            ));
            let l0 = s0.pages@[pc[pos - 1] as int]->Internal_0;
            lemma_kids_stable_full(
                s0.pages@, pages.pages@, cl, ci, l0.keys@, l0.children@, hg,
                child_lo(pk, plo, pos as int - 1), child_hi(pk, phi, pos as int - 1),
            );
            assert(subtree_entries(s0.pages@, pc[pos - 1], hc) == kids_entries(
                pages.pages@,
                left_node.children@,
                hg,
            ));
        }
            let sep = pkeys[pos - 1];
            proof {
                assert(sep as int == klo);
                assert forall|i: int|
                    0 <= i < left_node.keys@.len() implies left_node.keys@[i] < sep by {}
                if nd.keys@.len() > 0 {
                    assert(subtree_wf(
                        pages.pages@, cl, ci, nd.children@[0], hg, klo,
                        child_hi(nd.keys@, khi, 0), false,
                    ));
                    lemma_wf_entries(
                        pages.pages@, cl, ci, nd.children@[0], hg, klo,
                        child_hi(nd.keys@, khi, 0), false,
                    );
                    let es = subtree_entries(pages.pages@, nd.children@[0], hg);
                    assert(es.len() >= 1);
                    assert(klo <= es[0].0);
                    assert((es[0].0 as int) < nd.keys@[0]);
                }
                assert forall|i: int| 0 <= i < nd.keys@.len() implies nd.keys@[i] > sep by {
                    if i > 0 {
                        assert(nd.keys@[0] < nd.keys@[i]);
                    }
                }
                assert(left_node.keys@.len() <= imin);
                assert(left_node.keys@.len() + nd.keys@.len() + 1 <= icap);
            }
            let m = internal_merge(&left_node, &nd, sep);
            let ghost gm = m;
            proof {
                let lx = pos as int - 1;
                let llo = child_lo(pk, plo, lx);
                lemma_merge_kids(
                    pages.pages@, cl, ci, left_node.keys@, left_node.children@, nd.keys@,
                    nd.children@, hg, llo, sep, khi,
                );
            }
            let mid_id = InsertBacktrack::add_new_node(pages, Node::Internal(m));
            proof {
                let p2 = pages.pages@;
                let lx = pos as int - 1;
                let llo = child_lo(pk, plo, lx);
                assert(p2[mid_id as int] == Node::Internal(gm));
                lemma_kids_stable_full(
                    p0v, p2, cl, ci, gm.keys@, gm.children@, hg, llo, khi,
                );
                assert(subtree_wf(p2, cl, ci, mid_id, hc, llo, khi, false));
                let pre = subtree_entries(s0.pages@, pc[lx], hc);
                lemma_wf_entries(s0.pages@, cl, ci, pc[lx], hc, llo, klo, false);
                lemma_del_rel_frame(
                    pre, e0_child, kids_entries(p0v, nd.children@, hg),
                    Seq::<(u64, u64)>::empty(), key, llo, khi,
                );
                assert(pre + e0_child + Seq::<(u64, u64)>::empty() =~= pre + e0_child);
                assert(pre + kids_entries(p0v, nd.children@, hg) + Seq::<(
                    u64,
                    u64,
                )>::empty() =~= pre + kids_entries(p0v, nd.children@, hg));
                assert(subtree_entries(p2, mid_id, hc) =~= pre + kids_entries(
                    p0v,
                    nd.children@,
                    hg,
                ));
                lemma_kids_merge_del(
                    s0.pages@, p2, cl, ci, pk, pc, lx, mid_id, hc, plo, phi, key,
                );
            }
            let ptmp = InternalNode {
                keys: crate::arrayview::array_take(pkeys, pkeys.len()),
                children: crate::arrayview::array_set(&pchildren, pos - 1, mid_id),
            };
            proof {
                assert(ptmp.keys@ =~= pk);
            }
            let st = internal_delete_key_children(&ptmp, pos - 1, icap);
            Self::finish_merge_parent(
                pages,
                tx,
                f,
                st,
                Ghost(s0),
                Ghost(ph),
                Ghost(plo),
                Ghost(phi),
                Ghost(par_is_root),
                Ghost(pos as int - 1),
                Ghost(mid_id),
                Ghost(hc),
                Ghost(key),
            )
    }

    /// One repair case of an underfull internal node, split out so each
    /// carries its own proof budget.
    #[verifier::rlimit(100)]
    #[verifier::spinoff_prover]
    pub fn internal_merge_right_level(
        pages: &mut PageStore,
        tx: &mut WriteTransaction,
        f: Frame,
        nd: InternalNode,
        right_node: InternalNode,
        pkeys: &Vec<u64>,
        pchildren: &Vec<PageId>,
        key: u64,
        lcap: usize,
        icap: usize,
        lmin: usize,
        imin: usize,
        Ghost(s0): Ghost<PageStore>,
        Ghost(ph): Ghost<nat>,
        Ghost(plo): Ghost<int>,
        Ghost(phi): Ghost<int>,
        Ghost(par_is_root): Ghost<bool>,
    ) -> (r: Result<DelState, BTreeStoreError>)
        requires
            valid_page_size(s0.page_size),
            lcap as int == s0.leaf_cap(),
            icap as int == s0.internal_cap(),
            lmin as int == crate::node::min_leaf(s0.leaf_cap()),
            imin as int == crate::node::min_internal(s0.internal_cap()),
            store_extends(*old(pages), s0),
            crate::storage::pages_fit(*old(pages)),
            old(pages).pages@.len() + 3 <= u32::MAX,
            (f.id as int) < s0.pages@.len(),
            s0.pages@[f.id as int] is Internal,
            pkeys@ == s0.pages@[f.id as int]->Internal_0.keys@,
            pchildren@ == s0.pages@[f.id as int]->Internal_0.children@,
            subtree_wf(s0.pages@, s0.leaf_cap(), s0.internal_cap(), f.id, ph, plo, phi, par_is_root),
            ph >= 2,
            (f.pos as int) < pchildren@.len(),
            child_lo(pkeys@, plo, f.pos as int) <= key as int,
            (key as int) < child_hi(pkeys@, phi, f.pos as int),
            nd.children@.len() == nd.keys@.len() + 1,
            nd.keys@.len() == crate::node::min_internal(s0.internal_cap()) - 1,
            crate::node::strict_sorted(nd.keys@),
            crate::node::keys_in_range(
                nd.keys@,
                child_lo(pkeys@, plo, f.pos as int),
                child_hi(pkeys@, phi, f.pos as int),
            ),
            kids_wf(
                old(pages).pages@,
                s0.leaf_cap(),
                s0.internal_cap(),
                nd.keys@,
                nd.children@,
                (ph - 2) as nat,
                child_lo(pkeys@, plo, f.pos as int),
                child_hi(pkeys@, phi, f.pos as int),
            ),
            del_rel(
                subtree_entries(s0.pages@, pchildren@[f.pos as int], (ph - 1) as nat),
                kids_entries(old(pages).pages@, nd.children@, (ph - 2) as nat),
                key,
            ),
            f.pos as int + 1 < pchildren@.len(),
            right_node.keys@ == s0.pages@[pchildren@[f.pos as int + 1] as int]->Internal_0.keys@,
            right_node.children@ == s0.pages@[pchildren@[f.pos as int + 1] as int]->Internal_0.children@,
            right_node.keys@.len() <= imin,
        ensures
            store_extends(*final(pages), *old(pages)),
            crate::storage::pages_fit(*final(pages)),
            final(pages).pages@.len() <= old(pages).pages@.len() + 3,
            final(tx).root == old(tx).root,
            final(tx).version == old(tx).version,
            final(tx).height@ == old(tx).height@,
            match r {
                Ok(st) => del_prop_ok(
                    *final(pages),
                    subtree_entries(s0.pages@, f.id, ph),
                    ph,
                    plo,
                    phi,
                    par_is_root,
                    st,
                    key,
                ),
                Err(_) => false,
            },
    {
        let pos = f.pos;
        let ghost p0v = pages.pages@;
        let ghost cl = s0.leaf_cap();
        let ghost ci = s0.internal_cap();
        let ghost pk = pkeys@;
        let ghost pc = pchildren@;
        let ghost hc = (ph - 1) as nat;
        let ghost hg = (ph - 2) as nat;
        let ghost klo = child_lo(pk, plo, pos as int);
        let ghost khi = child_hi(pk, phi, pos as int);
        proof {
            assert(kids_wf(s0.pages@, cl, ci, pk, pc, hc, plo, phi));
        }
        let ghost e0_child = subtree_entries(s0.pages@, pc[pos as int], hc);
        proof {
            assert(subtree_wf(
                s0.pages@, cl, ci, pc[pos + 1], hc, child_lo(pk, plo, pos as int + 1),
                child_hi(pk, phi, pos as int + 1), false,
            ));
            let r0 = s0.pages@[pc[pos + 1] as int]->Internal_0;
            lemma_kids_stable_full(
                s0.pages@, pages.pages@, cl, ci, r0.keys@, r0.children@, hg,
                child_lo(pk, plo, pos as int + 1), child_hi(pk, phi, pos as int + 1),
            );
            assert(subtree_entries(s0.pages@, pc[pos + 1], hc) == kids_entries(
                pages.pages@,
                right_node.children@,
                hg,
            ));
        }
            let sep = pkeys[pos];
            proof {
                assert(sep as int == khi);
                assert forall|i: int| 0 <= i < nd.keys@.len() implies nd.keys@[i] < sep by {}
                assert(pages.pages@[pc[pos + 1] as int] == s0.pages@[pc[pos + 1] as int]);
                lemma_internal_first_key_gap(
                    s0.pages@, cl, ci, pc[pos + 1], hc, khi, child_hi(pk, phi, pos as int + 1),
                    false,
                );
                assert forall|i: int|
                    0 <= i < right_node.keys@.len() implies right_node.keys@[i] > sep by {
                    assert(right_node.keys@[0] > sep);
                }
                assert(right_node.keys@.len() <= imin);
                assert(nd.keys@.len() + right_node.keys@.len() + 1 <= icap);
            }
            let m = internal_merge(&nd, &right_node, sep);
            let ghost gm = m;
            proof {
                let rhi = child_hi(pk, phi, pos as int + 1);
                lemma_merge_kids(
                    pages.pages@, cl, ci, nd.keys@, nd.children@, right_node.keys@,
                    right_node.children@, hg, klo, sep, rhi,
                );
            }
            let mid_id = InsertBacktrack::add_new_node(pages, Node::Internal(m));
            proof {
                let p2 = pages.pages@;
                let rhi = child_hi(pk, phi, pos as int + 1);
                assert(p2[mid_id as int] == Node::Internal(gm));
                lemma_kids_stable_full(
                    p0v, p2, cl, ci, gm.keys@, gm.children@, hg, klo, rhi,
                );
                assert(subtree_wf(p2, cl, ci, mid_id, hc, klo, rhi, false));
                let post = subtree_entries(s0.pages@, pc[pos as int + 1], hc);
                lemma_wf_entries(s0.pages@, cl, ci, pc[pos as int + 1], hc, khi, rhi, false);
                lemma_del_rel_frame(
                    Seq::<(u64, u64)>::empty(), e0_child,
                    kids_entries(p0v, nd.children@, hg), post, key, klo, rhi,
                );
                assert(Seq::<(u64, u64)>::empty() + e0_child + post =~= e0_child + post);
                assert(Seq::<(u64, u64)>::empty() + kids_entries(
                    p0v,
                    nd.children@,
                    hg,
                ) + post =~= kids_entries(p0v, nd.children@, hg) + post);
                assert(subtree_entries(p2, mid_id, hc) =~= kids_entries(
                    p0v,
                    nd.children@,
                    hg,
                ) + post);
                lemma_kids_merge_del(
                    s0.pages@, p2, cl, ci, pk, pc, pos as int, mid_id, hc, plo, phi, key,
                );
            }
            let ptmp = InternalNode {
                keys: crate::arrayview::array_take(pkeys, pkeys.len()),
                children: crate::arrayview::array_set(&pchildren, pos, mid_id),
            };
            proof {
                assert(ptmp.keys@ =~= pk);
            }
            let st = internal_delete_key_children(&ptmp, pos, icap);
            Self::finish_merge_parent(
                pages,
                tx,
                f,
                st,
                Ghost(s0),
                Ghost(ph),
                Ghost(plo),
                Ghost(phi),
                Ghost(par_is_root),
                Ghost(pos as int),
                Ghost(mid_id),
                Ghost(hc),
                Ghost(key),
            )
    }

    /// After a merge, install the parent with one separator and one child
    /// fewer: either it is still at least half-full and replaces the old
    /// parent, or it travels upward as an underfull node.
    pub fn finish_merge_parent(
        pages: &mut PageStore,
        tx: &mut WriteTransaction,
        f: Frame,
        st: InternalDeleteStatus,
        Ghost(s0): Ghost<PageStore>,
        Ghost(ph): Ghost<nat>,
        Ghost(plo): Ghost<int>,
        Ghost(phi): Ghost<int>,
        Ghost(par_is_root): Ghost<bool>,
        Ghost(x): Ghost<int>,
        Ghost(mid_id): Ghost<PageId>,
        Ghost(hc): Ghost<nat>,
        Ghost(key): Ghost<u64>,
    ) -> (r: Result<DelState, BTreeStoreError>)
        requires
            valid_page_size(s0.page_size),
            store_extends(*old(pages), s0),
            crate::storage::pages_fit(*old(pages)),
            old(pages).pages@.len() + 1 <= u32::MAX,
            (f.id as int) < s0.pages@.len(),
            s0.pages@[f.id as int] is Internal,
            subtree_wf(s0.pages@, s0.leaf_cap(), s0.internal_cap(), f.id, ph, plo, phi, par_is_root),
            ph == hc + 1,
            ({
                let pk = s0.pages@[f.id as int]->Internal_0.keys@;
                let pc = s0.pages@[f.id as int]->Internal_0.children@;
                let nk = pk.take(x) + pk.skip(x + 1);
                let nc = pc.update(x, mid_id).take(x + 1) + pc.update(x, mid_id).skip(x + 2);
                &&& 0 <= x
                &&& x + 1 < pc.len()
                &&& crate::node::strict_sorted(nk)
                &&& crate::node::keys_in_range(nk, plo, phi)
                &&& kids_wf(old(pages).pages@, s0.leaf_cap(), s0.internal_cap(), nk, nc, hc, plo, phi)
                &&& del_rel(
                    kids_entries(s0.pages@, pc, hc),
                    kids_entries(old(pages).pages@, nc, hc),
                    key,
                )
                &&& match st {
                    InternalDeleteStatus::Removed(nn) => {
                        &&& nn.keys@ == nk
                        &&& nn.children@ == nc
                        &&& nn.keys@.len() >= crate::node::min_internal(s0.internal_cap())
                    },
                    InternalDeleteStatus::NeedsRebalance(nn) => {
                        &&& nn.keys@ == nk
                        &&& nn.children@ == nc
                        &&& nn.keys@.len() < crate::node::min_internal(s0.internal_cap())
                        &&& nn.keys@.len() == pk.len() - 1
                    },
                }
            }),
        ensures
            store_extends(*final(pages), *old(pages)),
            crate::storage::pages_fit(*final(pages)),
            final(pages).pages@.len() <= old(pages).pages@.len() + 1,
            final(tx).root == old(tx).root,
            final(tx).version == old(tx).version,
            final(tx).height@ == old(tx).height@,
            match r {
                Ok(rst) => del_prop_ok(
                    *final(pages),
                    subtree_entries(s0.pages@, f.id, ph),
                    ph,
                    plo,
                    phi,
                    par_is_root,
                    rst,
                    key,
                ),
                Err(_) => false,
            },
    {
        let ghost cl = s0.leaf_cap();
        let ghost ci = s0.internal_cap();
        let ghost pk = s0.pages@[f.id as int]->Internal_0.keys@;
        let ghost pc = s0.pages@[f.id as int]->Internal_0.children@;
        proof {
            assert(subtree_entries(s0.pages@, f.id, ph) == kids_entries(s0.pages@, pc, hc));
        }
        match st {
            InternalDeleteStatus::Removed(nn) => {
                let ghost nng = nn;
                let ghost p1 = pages.pages@;
                let new_id = InsertBacktrack::add_new_node(pages, Node::Internal(nn));
                tx.freed.push(f.id);
                proof {
                    let p2 = pages.pages@;
                    assert(p2[new_id as int] == Node::Internal(nng));
                    lemma_kids_stable_full(p1, p2, cl, ci, nng.keys@, nng.children@, hc, plo, phi);
                    assert(nng.keys@.len() >= 1) by {
                        assert(crate::node::min_internal(ci) >= 1);
                    }
                    assert(subtree_wf(p2, cl, ci, new_id, ph, plo, phi, par_is_root));
                    assert(subtree_entries(p2, new_id, ph) == kids_entries(p2, nng.children@, hc));
                }
                Ok(DelState::Replaced(new_id))
            },
            InternalDeleteStatus::NeedsRebalance(nn) => {
                tx.freed.push(f.id);
                proof {
                    if !par_is_root {
                        assert(pk.len() >= crate::node::min_internal(ci));
                        assert(nn.keys@.len() == crate::node::min_internal(ci) - 1);
                    }
                }
                Ok(DelState::UnderfullInternal(nn))
            },
        }
    }

    /// Descend from the snapshot's root to the leaf whose interval holds
    /// `key`. An entry keyed `key` is in the tree exactly when it is in
    /// that leaf.
    pub fn search(&self, tx: &ReadTransaction, key: u64) -> (leaf: PageId)
        requires
            self.wf(),
            tx.root == self.transaction_manager.current_root,
            tx.height@ == self.transaction_manager.height@,
        ensures
            (leaf as int) < self.pages.pages@.len(),
            self.pages.pages@[leaf as int] is Leaf,
            ({
                let l = self.pages.pages@[leaf as int]->Leaf_0;
                &&& crate::node::strict_sorted(l.keys@)
                &&& l.values@.len() == l.keys@.len()
            }),
            forall|v: u64|
                self.entries().contains((key, v)) == subtree_entries(
                    self.pages.pages@,
                    leaf,
                    0,
                ).contains((key, v)),
            kv_has(self.entries(), key) == kv_has(subtree_entries(self.pages.pages@, leaf, 0), key),
    {
        let (frames, info) = crate::backtrack::descend(
            &self.pages,
            tx.root,
            Ghost(tx.height@),
            key,
        );
        let ghost fseq = frames@;
        let ghost iseq = info@;
        let leaf = frames[frames.len() - 1].id;
        proof {
            lemma_path_localizes(self.pages, fseq, iseq, tx.root, tx.height@, key, 0);
            assert(fseq[0].id == tx.root);
            assert(fseq.last() == fseq[fseq.len() - 1]);
        }
        leaf
    }

    /// Point lookup: the value stored under `key`, if any.
    pub fn lookup(&self, key: &u64) -> (r: Option<u64>)
        requires
            self.wf(),
        ensures
            match r {
                Some(v) => self.entries().contains((*key, v)),
                None => !kv_has(self.entries(), *key),
            },
    {
        let read_transaction = self.transaction_manager.read_transaction();
        let leaf = self.search(&read_transaction, *key);
        match self.pages.get_page(leaf) {
            Node::Leaf(l) => {
                match crate::node::binary_search_keys(&l.keys, *key) {
                    Ok(pos) => {
                        let v = l.values[pos];
                        proof {
                            assert(entry_seq(*l)[pos as int] == (*key, v));
                            assert(subtree_entries(self.pages.pages@, leaf, 0).contains((*key, v)));
                        }
                        Some(v)
                    },
                    Err(_) => {
                        proof {
                            let es = subtree_entries(self.pages.pages@, leaf, 0);
                            assert(!kv_has(es, *key)) by {
                                if kv_has(es, *key) {
                                    let i = choose|i: int| 0 <= i < es.len() && es[i].0 == *key;
                                    assert(l.keys@[i] == *key);
                                }
                            }
                        }
                        None
                    },
                }
            },
            Node::Internal(_) => {
                proof {
                    assert(false);
                }
                None
            },
        }
    }
}

} // verus!
