//! Backtrack stacks. Copy-on-write forbids parent pointers (a parent page
//! gets a new id whenever any descendant is rewritten), so each mutating
//! operation rebuilds the path from the root toward its key and unwinds it
//! leaf-first, splitting or rebalancing parents as required.

use vstd::prelude::*;

use crate::node::{child_hi, child_lo, key_ub, kv_has, subtree_entries, lemma_route, Node};
use crate::pages::{valid_page_size, PageStore};
use crate::version_management::WriteTransaction;
use crate::PageId;

verus! {

/// One step of a descent: the page visited and the child position chosen.
#[derive(Clone, Copy)]
pub struct Frame {
    pub id: PageId,
    pub pos: usize,
}

/// The frame `f` (an internal node of height `fh` over `[flo, fhi)`) routes
/// the descent to child `nid` of height `nh` over `[nlo, nhi)`.
pub open spec fn frame_links(
    s: PageStore,
    f: Frame,
    fh: nat,
    flo: int,
    fhi: int,
    nid: PageId,
    nh: nat,
    nlo: int,
    nhi: int,
) -> bool {
    &&& (f.id as int) < s.pages@.len()
    &&& s.pages@[f.id as int] is Internal
    &&& {
        let n = s.pages@[f.id as int]->Internal_0;
        &&& (f.pos as int) < n.children@.len()
        &&& nid == n.children@[f.pos as int]
        &&& nh + 1 == fh
        &&& nlo == child_lo(n.keys@, flo, f.pos as int)
        &&& nhi == child_hi(n.keys@, fhi, f.pos as int)
    }
}

/// A complete descent path for `key`: each frame is well-formed over its
/// interval, routes to the next, contains `key` in its interval, and the
/// path ends at a leaf.
pub open spec fn path_ok(
    s: PageStore,
    frames: Seq<Frame>,
    info: Seq<(nat, int, int)>,
    root: PageId,
    hroot: nat,
    key: u64,
) -> bool {
    &&& frames.len() == info.len()
    &&& frames.len() >= 1
    &&& frames[0].id == root
    &&& info[0].0 == hroot
    &&& info[0].1 == 0
    &&& info[0].2 == key_ub()
    &&& (forall|i: int|
        0 <= i < frames.len() ==> s.wf_subtree(
            (#[trigger] frames[i]).id,
            info[i].0,
            info[i].1,
            info[i].2,
            i == 0,
        ))
    &&& (forall|i: int|
        0 <= i < frames.len() ==> info[i].1 <= key as int && (key as int) < (#[trigger] info[i]).2)
    &&& (forall|i: int|
        0 <= i < frames.len() - 1 ==> frame_links(
            s,
            #[trigger] frames[i],
            info[i].0,
            info[i].1,
            info[i].2,
            frames[i + 1].id,
            info[i + 1].0,
            info[i + 1].1,
            info[i + 1].2,
        ))
    &&& s.pages@[frames.last().id as int] is Leaf
    &&& info.last().0 == 0
}

/// Along a descent path, an entry keyed `key` sits in the subtree at frame
/// `i` exactly when it sits in the final leaf.
pub proof fn lemma_path_localizes(
    s: PageStore,
    frames: Seq<Frame>,
    info: Seq<(nat, int, int)>,
    root: PageId,
    hroot: nat,
    key: u64,
    i: int,
)
    requires
        path_ok(s, frames, info, root, hroot, key),
        0 <= i < frames.len(),
    ensures
        forall|v: u64|
            subtree_entries(s.pages@, frames[i].id, info[i].0).contains((key, v))
                == subtree_entries(s.pages@, frames.last().id, 0).contains((key, v)),
        kv_has(subtree_entries(s.pages@, frames[i].id, info[i].0), key) == kv_has(
            subtree_entries(s.pages@, frames.last().id, 0),
            key,
        ),
    decreases frames.len() - i,
{
    if i < frames.len() - 1 {
        lemma_route(
            s.pages@,
            s.leaf_cap(),
            s.internal_cap(),
            frames[i].id,
            info[i].0,
            info[i].1,
            info[i].2,
            i == 0,
            key,
            frames[i].pos as int,
        );
        lemma_path_localizes(s, frames, info, root, hroot, key, i + 1);
    }
}

/// Descend from the root toward `key`, recording one frame per visited page,
/// leaf included; the leaf frame's position is unused.
pub fn descend(store: &PageStore, root: PageId, Ghost(hroot): Ghost<nat>, key: u64) -> (r: (
    Vec<Frame>,
    Ghost<Seq<(nat, int, int)>>,
))
    requires
        valid_page_size(store.page_size),
        store.wf_subtree(root, hroot, 0, key_ub(), true),
    ensures
        path_ok(*store, r.0@, r.1@, root, hroot, key),
        r.0@.len() == hroot + 1,
{
    let mut frames: Vec<Frame> = Vec::new();
    let ghost mut info: Seq<(nat, int, int)> = Seq::empty();
    let mut cur: PageId = root;
    let ghost mut h: nat = hroot;
    let ghost mut lo: int = 0;
    let ghost mut hi: int = key_ub();
    loop
        invariant_except_break
            valid_page_size(store.page_size),
            frames@.len() == info.len(),
            frames@.len() + h == hroot,
            store.wf_subtree(cur, h, lo, hi, frames@.len() == 0),
            lo <= key as int && (key as int) < hi,
            frames@.len() == 0 ==> cur == root && h == hroot && lo == 0 && hi == key_ub(),
            frames@.len() >= 1 ==> frames@[0].id == root && info[0].0 == hroot && info[0].1 == 0
                && info[0].2 == key_ub(),
            forall|i: int|
                0 <= i < frames@.len() ==> store.wf_subtree(
                    (#[trigger] frames@[i]).id,
                    info[i].0,
                    info[i].1,
                    info[i].2,
                    i == 0,
                ),
            forall|i: int|
                0 <= i < frames@.len() ==> info[i].1 <= key as int && (key as int)
                    < (#[trigger] info[i]).2,
            forall|i: int|
                0 <= i < frames@.len() - 1 ==> frame_links(
                    *store,
                    #[trigger] frames@[i],
                    info[i].0,
                    info[i].1,
                    info[i].2,
                    frames@[i + 1].id,
                    info[i + 1].0,
                    info[i + 1].1,
                    info[i + 1].2,
                ),
            frames@.len() >= 1 ==> frame_links(
                *store,
                frames@.last(),
                info.last().0,
                info.last().1,
                info.last().2,
                cur,
                h,
                lo,
                hi,
            ),
        ensures
            frames@.len() == info.len(),
            frames@.len() + h == hroot,
            store.wf_subtree(cur, h, lo, hi, frames@.len() == 0),
            lo <= key as int && (key as int) < hi,
            frames@.len() == 0 ==> cur == root && h == hroot && lo == 0 && hi == key_ub(),
            frames@.len() >= 1 ==> frames@[0].id == root && info[0].0 == hroot && info[0].1 == 0
                && info[0].2 == key_ub(),
            forall|i: int|
                0 <= i < frames@.len() ==> store.wf_subtree(
                    (#[trigger] frames@[i]).id,
                    info[i].0,
                    info[i].1,
                    info[i].2,
                    i == 0,
                ),
            forall|i: int|
                0 <= i < frames@.len() ==> info[i].1 <= key as int && (key as int)
                    < (#[trigger] info[i]).2,
            forall|i: int|
                0 <= i < frames@.len() - 1 ==> frame_links(
                    *store,
                    #[trigger] frames@[i],
                    info[i].0,
                    info[i].1,
                    info[i].2,
                    frames@[i + 1].id,
                    info[i + 1].0,
                    info[i + 1].1,
                    info[i + 1].2,
                ),
            frames@.len() >= 1 ==> frame_links(
                *store,
                frames@.last(),
                info.last().0,
                info.last().1,
                info.last().2,
                cur,
                h,
                lo,
                hi,
            ),
            store.pages@[cur as int] is Leaf,
            h == 0,
        decreases h,
    {
        let node = store.get_page(cur);
        match node {
            Node::Leaf(_) => {
                break;
            },
            Node::Internal(n) => {
                let pos = match binary_search_keys_ref(&n.keys, key) {
                    Ok(p) => p + 1,
                    Err(p) => p,
                };
                let ghost keys = n.keys@;
                proof {
                    assert(child_lo(keys, lo, pos as int) <= key as int);
                    assert((key as int) < child_hi(keys, hi, pos as int));
                }
                frames.push(Frame { id: cur, pos });
                proof {
                    info = info.push((h, lo, hi));
                }
                let nxt = n.children[pos];
                proof {
                    lo = child_lo(keys, lo, pos as int);
                    hi = child_hi(keys, hi, pos as int);
                    h = (h - 1) as nat;
                }
                cur = nxt;
                proof {
                    assert forall|i: int|
                        0 <= i < frames@.len() - 1 implies frame_links(
                        *store,
                        #[trigger] frames@[i],
                        info[i].0,
                        info[i].1,
                        info[i].2,
                        frames@[i + 1].id,
                        info[i + 1].0,
                        info[i + 1].1,
                        info[i + 1].2,
                    ) by {
                        if i < frames@.len() - 2 {
                            assert(frames@[i] == frames@.drop_last()[i]);
                        }
                    }
                }
            },
        }
    }
    frames.push(Frame { id: cur, pos: 0 });
    proof {
        info = info.push((h, lo, hi));
        assert forall|i: int|
            0 <= i < frames@.len() - 1 implies frame_links(
            *store,
            #[trigger] frames@[i],
            info[i].0,
            info[i].1,
            info[i].2,
            frames@[i + 1].id,
            info[i + 1].0,
            info[i + 1].1,
            info[i + 1].2,
        ) by {
            if i < frames@.len() - 2 {
                assert(frames@[i] == frames@.drop_last()[i]);
            }
        }
    }
    (frames, Ghost(info))
}

/// Binary search over a borrowed key array; mirrors the packed-array search.
fn binary_search_keys_ref(keys: &Vec<u64>, key: u64) -> (r: Result<usize, usize>)
    requires
        crate::node::strict_sorted(keys@),
    ensures
        match r {
            Ok(i) => i < keys@.len() && keys@[i as int] == key,
            Err(i) => {
                &&& i <= keys@.len()
                &&& forall|j: int| 0 <= j < i ==> keys@[j] < key
                &&& forall|j: int| i <= j < keys@.len() ==> keys@[j] > key
            },
        },
{
    crate::node::binary_search_keys(keys, key)
}

/// Descent state for an insert: frames are consumed leaf-first.
pub struct InsertBacktrack {
    pub frames: Vec<Frame>,
    pub info: Ghost<Seq<(nat, int, int)>>,
}

impl InsertBacktrack {
    /// Build the path from the published root toward `key`.
    pub fn new_search_for(store: &PageStore, root: PageId, Ghost(hroot): Ghost<nat>, key: u64) -> (bt:
        InsertBacktrack)
        requires
            valid_page_size(store.page_size),
            store.wf_subtree(root, hroot, 0, key_ub(), true),
        ensures
            path_ok(*store, bt.frames@, bt.info@, root, hroot, key),
            bt.frames@.len() == hroot + 1,
    {
        let (frames, info) = descend(store, root, Ghost(hroot), key);
        InsertBacktrack { frames, info }
    }

    /// Install a node produced during the unwind on a fresh page. Only
    /// nodes that fit a page image are ever installed, so the arena always
    /// serializes.
    pub fn add_new_node(store: &mut PageStore, node: Node) -> (id: PageId)
        requires
            old(store).pages@.len() < u32::MAX as int,
            crate::storage::node_fits(node, old(store).page_size as int),
        ensures
            final(store).pages@ == old(store).pages@.push(node),
            id as int == old(store).pages@.len(),
            final(store).page_size == old(store).page_size,
            crate::storage::pages_fit(*old(store)) ==> crate::storage::pages_fit(*final(store)),
    {
        let ghost s0 = *store;
        let id = store.append_page(node);
        proof {
            if crate::storage::pages_fit(s0) {
                assert forall|i: int|
                    0 <= i < store.pages@.len() implies crate::storage::node_fits(
                    #[trigger] store.pages@[i],
                    store.page_size as int,
                ) by {
                    if i < s0.pages@.len() {
                        assert(store.pages@[i] == s0.pages@[i]);
                    } else {
                        assert(store.pages@[i] == node);
                    }
                }
            }
        }
        id
    }

    /// Publish a new root within the transaction.
    pub fn new_root(tx: &mut WriteTransaction, id: PageId, Ghost(height): Ghost<nat>)
        ensures
            final(tx).root == id,
            final(tx).height@ == height,
            final(tx).freed == old(tx).freed,
            final(tx).version == old(tx).version,
    {
        tx.root = id;
        tx.height = Ghost(height);
    }
}

/// Descent state for a delete: the same frames, consumed leaf-first; the
/// anchor and the sibling ids of each node are read off its parent frame
/// during the unwind.
pub struct DeleteBacktrack {
    pub frames: Vec<Frame>,
    pub info: Ghost<Seq<(nat, int, int)>>,
}

impl DeleteBacktrack {
    /// Build the path from the published root toward `key`.
    pub fn new_search_for(store: &PageStore, root: PageId, Ghost(hroot): Ghost<nat>, key: u64) -> (bt:
        DeleteBacktrack)
        requires
            valid_page_size(store.page_size),
            store.wf_subtree(root, hroot, 0, key_ub(), true),
        ensures
            path_ok(*store, bt.frames@, bt.info@, root, hroot, key),
            bt.frames@.len() == hroot + 1,
    {
        let (frames, info) = descend(store, root, Ghost(hroot), key);
        DeleteBacktrack { frames, info }
    }
}

} // verus!
