//! Node layout: a page is either an internal routing node (keys plus child
//! page ids) or a leaf (keys plus values). Keys within a node are strictly
//! ascending; an internal node with keys k1..kL and children c0..cL routes a
//! lookup for k to the child whose key interval contains k: child i covers
//! [k_i, k_{i+1}) with k_0 the subtree's lower bound and k_{L+1} its upper
//! bound.

use vstd::prelude::*;

use crate::PageId;

verus! {

/// A leaf stores a packed ordered array of keys and a parallel array of
/// values of the same length.
pub struct LeafNode {
    pub keys: Vec<u64>,
    pub values: Vec<u64>,
}

/// An internal node stores a packed ordered array of L keys and an array of
/// L + 1 child page ids.
pub struct InternalNode {
    pub keys: Vec<u64>,
    pub children: Vec<PageId>,
}

/// A node, discriminated on disk by a one-byte tag.
pub enum Node {
    Internal(InternalNode),
    Leaf(LeafNode),
}

/// One past the largest representable key: the upper bound of every key
/// interval in the tree.
pub open spec fn key_ub() -> int {
    0x1_0000_0000_0000_0000
}

/// The key/value pairs of a leaf, in key order.
pub open spec fn entry_seq(l: LeafNode) -> Seq<(u64, u64)> {
    Seq::new(l.keys@.len(), |i: int| (l.keys@[i], l.values@[i]))
}

pub open spec fn strict_sorted(s: Seq<u64>) -> bool {
    forall|i: int, j: int| 0 <= i < j < s.len() ==> s[i] < s[j]
}

pub open spec fn keys_in_range(s: Seq<u64>, lo: int, hi: int) -> bool {
    forall|i: int| 0 <= i < s.len() ==> lo <= #[trigger] s[i] < hi
}

pub open spec fn entries_sorted(s: Seq<(u64, u64)>) -> bool {
    forall|i: int, j: int| 0 <= i < j < s.len() ==> (#[trigger] s[i]).0 < (#[trigger] s[j]).0
}

pub open spec fn entries_in_range(s: Seq<(u64, u64)>, lo: int, hi: int) -> bool {
    forall|i: int| 0 <= i < s.len() ==> lo <= (#[trigger] s[i]).0 < hi
}

/// Whether some entry of `s` carries key `k`.
pub open spec fn kv_has(s: Seq<(u64, u64)>, k: u64) -> bool {
    exists|i: int| 0 <= i < s.len() && (#[trigger] s[i]).0 == k
}

/// `new` holds exactly the entries of `old` plus the pair `(k, v)`.
pub open spec fn ins_rel(old: Seq<(u64, u64)>, new: Seq<(u64, u64)>, k: u64, v: u64) -> bool {
    &&& new.contains((k, v))
    &&& forall|e: (u64, u64)| old.contains(e) && e.0 != k ==> new.contains(e)
    &&& forall|e: (u64, u64)| new.contains(e) ==> e == (k, v) || old.contains(e)
}

/// `new` holds exactly the entries of `old` minus the one keyed `k`.
pub open spec fn del_rel(old: Seq<(u64, u64)>, new: Seq<(u64, u64)>, k: u64) -> bool {
    &&& !kv_has(new, k)
    &&& forall|e: (u64, u64)| old.contains(e) && e.0 != k ==> new.contains(e)
    &&& forall|e: (u64, u64)| new.contains(e) ==> old.contains(e)
}

/// Membership distributes over concatenation.
pub proof fn lemma_contains_add<T>(a: Seq<T>, b: Seq<T>, x: T)
    ensures
        (a + b).contains(x) <==> a.contains(x) || b.contains(x),
{
    if (a + b).contains(x) {
        let i = choose|i: int| 0 <= i < (a + b).len() && (a + b)[i] == x;
        if i < a.len() {
            assert(a[i] == x);
        } else {
            assert(b[i - a.len()] == x);
        }
    }
    if a.contains(x) {
        let i = choose|i: int| 0 <= i < a.len() && a[i] == x;
        assert((a + b)[i] == x);
    }
    if b.contains(x) {
        let i = choose|i: int| 0 <= i < b.len() && b[i] == x;
        assert((a + b)[a.len() + i] == x);
    }
}

/// Lower bound of the key interval covered by child `i` of an internal node.
pub open spec fn child_lo(keys: Seq<u64>, lo: int, i: int) -> int {
    if i == 0 {
        lo
    } else {
        keys[i - 1] as int
    }
}

/// Upper bound (exclusive) of the key interval covered by child `i`.
pub open spec fn child_hi(keys: Seq<u64>, hi: int, i: int) -> int {
    if i == keys.len() {
        hi
    } else {
        keys[i] as int
    }
}

/// Key/value pairs stored in the subtree rooted at `id`, leaves first to
/// last. `h` is the height of the subtree: 0 for a leaf.
pub open spec fn subtree_entries(pages: Seq<Node>, id: PageId, h: nat) -> Seq<(u64, u64)>
    decreases h, 0nat,
{
    if id < pages.len() {
        match pages[id as int] {
            Node::Leaf(l) => entry_seq(l),
            Node::Internal(n) => if h >= 1 {
                kids_entries(pages, n.children@, (h - 1) as nat)
            } else {
                Seq::empty()
            },
        }
    } else {
        Seq::empty()
    }
}

/// Concatenation of the entries of the subtrees rooted at `kids`, each of
/// height `h`.
pub open spec fn kids_entries(pages: Seq<Node>, kids: Seq<PageId>, h: nat) -> Seq<(u64, u64)>
    decreases h, kids.len(),
{
    if kids.len() == 0 {
        Seq::empty()
    } else {
        kids_entries(pages, kids.drop_last(), h) + subtree_entries(pages, kids.last(), h)
    }
}

/// Minimum number of entries of a non-root leaf with capacity `cl`.
pub open spec fn min_leaf(cl: int) -> int {
    (cl + 1) / 2
}

/// Minimum number of keys of a non-root internal node with key capacity `ci`.
pub open spec fn min_internal(ci: int) -> int {
    ci / 2
}

/// Well-formedness of the subtree rooted at `id`, the tree's standing
/// invariants in one predicate: keys within every node are strictly
/// ascending and confined to [lo, hi) (I1); children straddle their
/// parent's keys through the `child_lo`/`child_hi` intervals (I2); every
/// non-root node is at least half-full (I3); and the tag matches the
/// height, so all leaves sit at the same depth (I4). Every mutating
/// operation's ensures carries this predicate for the whole new tree.
pub open spec fn subtree_wf(
    pages: Seq<Node>,
    cl: int,
    ci: int,
    id: PageId,
    h: nat,
    lo: int,
    hi: int,
    is_root: bool,
) -> bool
    decreases h,
{
    &&& 1 <= id < pages.len()
    &&& match pages[id as int] {
        Node::Leaf(l) => {
            &&& h == 0
            &&& l.values@.len() == l.keys@.len()
            &&& l.keys@.len() <= cl
            &&& (is_root || l.keys@.len() >= min_leaf(cl))
            &&& strict_sorted(l.keys@)
            &&& keys_in_range(l.keys@, lo, hi)
        },
        Node::Internal(n) => {
            &&& h >= 1
            &&& n.children@.len() == n.keys@.len() + 1
            &&& n.keys@.len() <= ci
            &&& 1 <= n.keys@.len()
            &&& (is_root || n.keys@.len() >= min_internal(ci))
            &&& strict_sorted(n.keys@)
            &&& keys_in_range(n.keys@, lo, hi)
            &&& forall|i: int| 0 <= i < n.children@.len() ==> subtree_wf(
                pages,
                cl,
                ci,
                #[trigger] n.children@[i],
                (h - 1) as nat,
                child_lo(n.keys@, lo, i),
                child_hi(n.keys@, hi, i),
                false,
            )
        },
    }
}

/// Two nodes with the same kind and the same key, value and child views.
pub open spec fn node_views_eq(a: Node, b: Node) -> bool {
    match (a, b) {
        (Node::Leaf(x), Node::Leaf(y)) => x.keys@ == y.keys@ && x.values@ == y.values@,
        (Node::Internal(x), Node::Internal(y)) => x.keys@ == y.keys@ && x.children@
            == y.children@,
        _ => false,
    }
}

/// Two arenas whose pages agree view for view carry the same well-formed
/// subtrees with the same entries.
pub proof fn lemma_subtree_views(
    p1: Seq<Node>,
    p2: Seq<Node>,
    cl: int,
    ci: int,
    id: PageId,
    h: nat,
    lo: int,
    hi: int,
    is_root: bool,
)
    requires
        subtree_wf(p1, cl, ci, id, h, lo, hi, is_root),
        p1.len() <= p2.len(),
        forall|j: int| 0 <= j < p1.len() ==> node_views_eq(#[trigger] p1[j], p2[j]),
    ensures
        subtree_wf(p2, cl, ci, id, h, lo, hi, is_root),
        subtree_entries(p2, id, h) == subtree_entries(p1, id, h),
    decreases h, 0nat,
{
    match p1[id as int] {
        Node::Leaf(l) => {
            let l2 = p2[id as int]->Leaf_0;
            assert(entry_seq(l2) =~= entry_seq(l));
        },
        Node::Internal(n) => {
            let n2 = p2[id as int]->Internal_0;
            lemma_kids_views(p1, p2, cl, ci, n.keys@, n.children@, n.children@.len() as int, (h
                - 1) as nat, lo, hi);
            assert(n.children@.take(n.children@.len() as int) =~= n.children@);
        },
    }
}

/// Helper for the view-congruence lemma, over a prefix of the children.
proof fn lemma_kids_views(
    p1: Seq<Node>,
    p2: Seq<Node>,
    cl: int,
    ci: int,
    keys: Seq<u64>,
    kids: Seq<PageId>,
    m: int,
    h: nat,
    lo: int,
    hi: int,
)
    requires
        0 <= m <= kids.len(),
        kids.len() == keys.len() + 1,
        forall|i: int| 0 <= i < kids.len() ==> subtree_wf(
            p1, cl, ci, #[trigger] kids[i], h, child_lo(keys, lo, i), child_hi(keys, hi, i), false,
        ),
        p1.len() <= p2.len(),
        forall|j: int| 0 <= j < p1.len() ==> node_views_eq(#[trigger] p1[j], p2[j]),
    ensures
        forall|i: int| 0 <= i < m ==> subtree_wf(
            p2, cl, ci, #[trigger] kids[i], h, child_lo(keys, lo, i), child_hi(keys, hi, i), false,
        ),
        kids_entries(p2, kids.take(m), h) == kids_entries(p1, kids.take(m), h),
    decreases h, m,
{
    if m == 0 {
        assert(kids.take(0) =~= Seq::<PageId>::empty());
    } else {
        lemma_kids_views(p1, p2, cl, ci, keys, kids, m - 1, h, lo, hi);
        lemma_subtree_views(
            p1, p2, cl, ci, kids[m - 1], h, child_lo(keys, lo, m - 1), child_hi(keys, hi, m - 1),
            false,
        );
        assert(kids.take(m).drop_last() =~= kids.take(m - 1));
        assert(kids.take(m).last() == kids[m - 1]);
    }
}

/// Growing the page arena (or rewriting only pages past the end of `p1`)
/// changes neither well-formedness nor the entries of a subtree that lives in
/// the common prefix.
pub proof fn lemma_subtree_prefix_stable(
    p1: Seq<Node>,
    p2: Seq<Node>,
    cl: int,
    ci: int,
    id: PageId,
    h: nat,
    lo: int,
    hi: int,
    is_root: bool,
)
    requires
        subtree_wf(p1, cl, ci, id, h, lo, hi, is_root),
        p1.len() <= p2.len(),
        forall|j: int| 0 <= j < p1.len() ==> p2[j] == p1[j],
    ensures
        subtree_wf(p2, cl, ci, id, h, lo, hi, is_root),
        subtree_entries(p2, id, h) == subtree_entries(p1, id, h),
    decreases h, 0nat,
{
    match p1[id as int] {
        Node::Leaf(_) => {},
        Node::Internal(n) => {
            lemma_kids_prefix_stable(p1, p2, cl, ci, n.keys@, n.children@, n.children@.len() as int, (h - 1) as nat, lo, hi);
            assert(n.children@.take(n.children@.len() as int) =~= n.children@);
        },
    }
}

/// Helper for the stability lemma: the first `m` children keep their
/// well-formedness and entries when the arena grows.
pub proof fn lemma_kids_prefix_stable(
    p1: Seq<Node>,
    p2: Seq<Node>,
    cl: int,
    ci: int,
    keys: Seq<u64>,
    kids: Seq<PageId>,
    m: int,
    h: nat,
    lo: int,
    hi: int,
)
    requires
        0 <= m <= kids.len(),
        kids.len() == keys.len() + 1,
        forall|i: int| 0 <= i < kids.len() ==> subtree_wf(
            p1, cl, ci, #[trigger] kids[i], h, child_lo(keys, lo, i), child_hi(keys, hi, i), false,
        ),
        p1.len() <= p2.len(),
        forall|j: int| 0 <= j < p1.len() ==> p2[j] == p1[j],
    ensures
        forall|i: int| 0 <= i < m ==> subtree_wf(
            p2, cl, ci, #[trigger] kids[i], h, child_lo(keys, lo, i), child_hi(keys, hi, i), false,
        ),
        kids_entries(p2, kids.take(m), h) == kids_entries(p1, kids.take(m), h),
    decreases h, m,
{
    if m == 0 {
        assert(kids.take(0) =~= Seq::<PageId>::empty());
    } else {
        lemma_kids_prefix_stable(p1, p2, cl, ci, keys, kids, m - 1, h, lo, hi);
        lemma_subtree_prefix_stable(
            p1, p2, cl, ci, kids[m - 1], h, child_lo(keys, lo, m - 1), child_hi(keys, hi, m - 1), false,
        );
        assert(kids.take(m).drop_last() =~= kids.take(m - 1));
        assert(kids.take(m).last() == kids[m - 1]);
    }
}

/// A well-formed subtree yields entries that are sorted strictly by key and
/// confined to the subtree's key interval; a non-root subtree is never empty.
pub proof fn lemma_wf_entries(
    p: Seq<Node>,
    cl: int,
    ci: int,
    id: PageId,
    h: nat,
    lo: int,
    hi: int,
    is_root: bool,
)
    requires
        subtree_wf(p, cl, ci, id, h, lo, hi, is_root),
    ensures
        entries_sorted(subtree_entries(p, id, h)),
        entries_in_range(subtree_entries(p, id, h), lo, hi),
        !is_root && cl >= 1 ==> subtree_entries(p, id, h).len() >= 1,
    decreases h, 0nat,
{
    match p[id as int] {
        Node::Leaf(l) => {},
        Node::Internal(n) => {
            let kids = n.children@;
            lemma_kids_entries_props(p, cl, ci, n.keys@, kids, kids.len() as int, (h - 1) as nat, lo, hi);
            assert(kids.take(kids.len() as int) =~= kids);
        },
    }
}

/// Helper: the concatenated entries of the first `m` children are sorted and
/// lie below the `m`-th separator.
pub proof fn lemma_kids_entries_props(
    p: Seq<Node>,
    cl: int,
    ci: int,
    keys: Seq<u64>,
    kids: Seq<PageId>,
    m: int,
    h: nat,
    lo: int,
    hi: int,
)
    requires
        0 <= m <= kids.len(),
        kids.len() == keys.len() + 1,
        strict_sorted(keys),
        keys_in_range(keys, lo, hi),
        forall|i: int| 0 <= i < kids.len() ==> subtree_wf(
            p, cl, ci, #[trigger] kids[i], h, child_lo(keys, lo, i), child_hi(keys, hi, i), false,
        ),
    ensures
        entries_sorted(kids_entries(p, kids.take(m), h)),
        entries_in_range(
            kids_entries(p, kids.take(m), h),
            lo,
            if m == 0 { lo } else { child_hi(keys, hi, m - 1) },
        ),
        m >= 1 && cl >= 1 ==> kids_entries(p, kids.take(m), h).len() >= 1,
    decreases h, m,
{
    if m == 0 {
        assert(kids.take(0) =~= Seq::<PageId>::empty());
    } else {
        lemma_kids_entries_props(p, cl, ci, keys, kids, m - 1, h, lo, hi);
        lemma_wf_entries(p, cl, ci, kids[m - 1], h, child_lo(keys, lo, m - 1), child_hi(keys, hi, m - 1), false);
        assert(kids.take(m).drop_last() =~= kids.take(m - 1));
        assert(kids.take(m).last() == kids[m - 1]);
        let pre = kids_entries(p, kids.take(m - 1), h);
        let mid = subtree_entries(p, kids[m - 1], h);
        let all = kids_entries(p, kids.take(m), h);
        assert(all =~= pre + mid);
        assert forall|i: int, j: int| 0 <= i < j < all.len() implies (#[trigger] all[i]).0 < (#[trigger] all[j]).0 by {
            if i < pre.len() && j >= pre.len() {
                assert(all[i] == pre[i]);
                assert(all[j] == mid[j - pre.len()]);
                assert(pre[i].0 < child_hi(keys, hi, m - 2));
                assert(child_hi(keys, hi, m - 2) == child_lo(keys, lo, m - 1));
                assert(child_lo(keys, lo, m - 1) <= mid[j - pre.len()].0);
            }
        }
    }
}

/// The entries of a list of sibling subtrees split at any index `m`.
pub proof fn lemma_kids_entries_split(p: Seq<Node>, kids: Seq<PageId>, m: int, h: nat)
    requires
        0 <= m <= kids.len(),
    ensures
        kids_entries(p, kids, h) == kids_entries(p, kids.take(m), h) + kids_entries(
            p,
            kids.skip(m),
            h,
        ),
    decreases kids.len(),
{
    if m == kids.len() {
        assert(kids.take(m) =~= kids);
        assert(kids.skip(m) =~= Seq::<PageId>::empty());
        assert(kids_entries(p, kids, h) + kids_entries(p, kids.skip(m), h) =~= kids_entries(p, kids, h));
    } else {
        let dl = kids.drop_last();
        lemma_kids_entries_split(p, dl, m, h);
        assert(dl.take(m) =~= kids.take(m));
        let tail = kids.skip(m);
        assert(tail.len() > 0);
        assert(tail.drop_last() =~= dl.skip(m));
        assert(tail.last() == kids.last());
        assert(kids_entries(p, kids, h) =~= kids_entries(p, kids.take(m), h) + kids_entries(p, kids.skip(m), h));
    }
}

/// Entries of a single-element child list are the entries of that child.
pub proof fn lemma_kids_entries_one(p: Seq<Node>, kid: PageId, h: nat)
    ensures
        kids_entries(p, seq![kid], h) == subtree_entries(p, kid, h),
{
    assert(seq![kid].len() == 1);
    assert(seq![kid].last() == kid);
    assert(seq![kid].drop_last() =~= Seq::<PageId>::empty());
    assert(kids_entries(p, Seq::<PageId>::empty(), h) =~= Seq::<(u64, u64)>::empty());
    assert(kids_entries(p, seq![kid], h) =~= subtree_entries(p, kid, h));
}

/// Helper: the concatenated entries of the children from `m` on lie at or
/// above the `m`-th separator.
pub proof fn lemma_kids_skip_props(
    p: Seq<Node>,
    cl: int,
    ci: int,
    keys: Seq<u64>,
    kids: Seq<PageId>,
    m: int,
    h: nat,
    lo: int,
    hi: int,
)
    requires
        0 <= m <= kids.len(),
        kids.len() == keys.len() + 1,
        strict_sorted(keys),
        keys_in_range(keys, lo, hi),
        forall|i: int| 0 <= i < kids.len() ==> subtree_wf(
            p, cl, ci, #[trigger] kids[i], h, child_lo(keys, lo, i), child_hi(keys, hi, i), false,
        ),
    ensures
        entries_in_range(
            kids_entries(p, kids.skip(m), h),
            if m == kids.len() { hi } else { child_lo(keys, lo, m) },
            hi,
        ),
    decreases kids.len() - m,
{
    if m < kids.len() {
        lemma_kids_skip_props(p, cl, ci, keys, kids, m + 1, h, lo, hi);
        lemma_wf_entries(p, cl, ci, kids[m], h, child_lo(keys, lo, m), child_hi(keys, hi, m), false);
        lemma_kids_entries_split(p, kids.skip(m), 1, h);
        assert(kids.skip(m).take(1) =~= seq![kids[m]]);
        assert(kids.skip(m).skip(1) =~= kids.skip(m + 1));
        lemma_kids_entries_one(p, kids[m], h);
        let all = kids_entries(p, kids.skip(m), h);
        let mid = subtree_entries(p, kids[m], h);
        let tail = kids_entries(p, kids.skip(m + 1), h);
        assert(all =~= mid + tail);
        assert forall|i: int| 0 <= i < all.len() implies child_lo(keys, lo, m) <= (#[trigger] all[i]).0 < hi by {
            if i < mid.len() {
                assert(all[i] == mid[i]);
            } else {
                assert(all[i] == tail[i - mid.len()]);
            }
        }
    }
}

/// The children of an internal node with keys `keys` are each well-formed
/// over the interval the parent's keys assign them.
pub open spec fn kids_wf(
    pages: Seq<Node>,
    cl: int,
    ci: int,
    keys: Seq<u64>,
    kids: Seq<PageId>,
    h: nat,
    lo: int,
    hi: int,
) -> bool {
    forall|i: int| 0 <= i < kids.len() ==> subtree_wf(
        pages, cl, ci, #[trigger] kids[i], h, child_lo(keys, lo, i), child_hi(keys, hi, i), false,
    )
}

/// Stability of a whole child list under growth of the arena.
pub proof fn lemma_kids_stable_full(
    p0: Seq<Node>,
    p1: Seq<Node>,
    cl: int,
    ci: int,
    keys: Seq<u64>,
    kids: Seq<PageId>,
    h: nat,
    lo: int,
    hi: int,
)
    requires
        kids.len() == keys.len() + 1,
        kids_wf(p0, cl, ci, keys, kids, h, lo, hi),
        p0.len() <= p1.len(),
        forall|j: int| 0 <= j < p0.len() ==> p1[j] == p0[j],
    ensures
        kids_wf(p1, cl, ci, keys, kids, h, lo, hi),
        kids_entries(p1, kids, h) == kids_entries(p0, kids, h),
    decreases h,
{
    lemma_kids_prefix_stable(p0, p1, cl, ci, keys, kids, kids.len() as int, h, lo, hi);
    assert(kids.take(kids.len() as int) =~= kids);
}

/// Entries of a prefix of the child list are stable too, and so, by
/// cancellation, are those of the matching suffix.
pub proof fn lemma_kids_stable_parts(
    p0: Seq<Node>,
    p1: Seq<Node>,
    cl: int,
    ci: int,
    keys: Seq<u64>,
    kids: Seq<PageId>,
    m: int,
    h: nat,
    lo: int,
    hi: int,
)
    requires
        kids.len() == keys.len() + 1,
        0 <= m <= kids.len(),
        kids_wf(p0, cl, ci, keys, kids, h, lo, hi),
        p0.len() <= p1.len(),
        forall|j: int| 0 <= j < p0.len() ==> p1[j] == p0[j],
    ensures
        kids_entries(p1, kids.take(m), h) == kids_entries(p0, kids.take(m), h),
        kids_entries(p1, kids.skip(m), h) == kids_entries(p0, kids.skip(m), h),
{
    lemma_kids_prefix_stable(p0, p1, cl, ci, keys, kids, m, h, lo, hi);
    lemma_kids_stable_full(p0, p1, cl, ci, keys, kids, h, lo, hi);
    lemma_kids_entries_split(p0, kids, m, h);
    lemma_kids_entries_split(p1, kids, m, h);
    let a0 = kids_entries(p0, kids.take(m), h);
    let b0 = kids_entries(p0, kids.skip(m), h);
    let a1 = kids_entries(p1, kids.take(m), h);
    let b1 = kids_entries(p1, kids.skip(m), h);
    assert(a0 + b0 == a1 + b1);
    assert(a0 == a1);
    assert(b1 =~= (a1 + b1).skip(a1.len() as int));
    assert(b0 =~= (a0 + b0).skip(a0.len() as int));
}

/// Replacing the child at `pos` by a well-formed substitute whose entries
/// realise the insert relation yields a child list whose concatenated
/// entries realise it too.
pub proof fn lemma_kids_replace(
    p0: Seq<Node>,
    p1: Seq<Node>,
    cl: int,
    ci: int,
    keys: Seq<u64>,
    kids: Seq<PageId>,
    pos: int,
    nid: PageId,
    h: nat,
    lo: int,
    hi: int,
    k: u64,
    v: u64,
)
    requires
        kids.len() == keys.len() + 1,
        0 <= pos < kids.len(),
        kids_wf(p0, cl, ci, keys, kids, h, lo, hi),
        p0.len() <= p1.len(),
        forall|j: int| 0 <= j < p0.len() ==> p1[j] == p0[j],
        subtree_wf(p1, cl, ci, nid, h, child_lo(keys, lo, pos), child_hi(keys, hi, pos), false),
        ins_rel(subtree_entries(p0, kids[pos], h), subtree_entries(p1, nid, h), k, v),
    ensures
        kids_wf(p1, cl, ci, keys, kids.update(pos, nid), h, lo, hi),
        ins_rel(kids_entries(p0, kids, h), kids_entries(p1, kids.update(pos, nid), h), k, v),
{
    let updated = kids.update(pos, nid);
    lemma_kids_stable_full(p0, p1, cl, ci, keys, kids, h, lo, hi);
    assert forall|i: int| 0 <= i < updated.len() implies subtree_wf(
        p1, cl, ci, #[trigger] updated[i], h, child_lo(keys, lo, i), child_hi(keys, hi, i), false,
    ) by {
        if i != pos {
            assert(updated[i] == kids[i]);
        }
    }
    // split both concatenations around pos
    lemma_kids_entries_split(p0, kids, pos, h);
    lemma_kids_entries_split(p0, kids.skip(pos), 1, h);
    assert(kids.skip(pos).take(1) =~= seq![kids[pos]]);
    assert(kids.skip(pos).skip(1) =~= kids.skip(pos + 1));
    lemma_kids_entries_one(p0, kids[pos], h);
    lemma_kids_entries_split(p1, updated, pos, h);
    lemma_kids_entries_split(p1, updated.skip(pos), 1, h);
    assert(updated.skip(pos).take(1) =~= seq![nid]);
    assert(updated.skip(pos).skip(1) =~= kids.skip(pos + 1));
    lemma_kids_entries_one(p1, nid, h);
    assert(updated.take(pos) =~= kids.take(pos));
    lemma_kids_stable_parts(p0, p1, cl, ci, keys, kids, pos, h, lo, hi);
    lemma_kids_entries_split(p1, kids.skip(pos), 1, h);
    let pre = kids_entries(p0, kids.take(pos), h);
    let mid0 = subtree_entries(p0, kids[pos], h);
    let mid1 = subtree_entries(p1, nid, h);
    let post = kids_entries(p0, kids.skip(pos + 1), h);
    let all0 = kids_entries(p0, kids, h);
    let all1 = kids_entries(p1, updated, h);
    assert(kids_entries(p1, kids.skip(pos), h) == kids_entries(p0, kids.skip(pos), h));
    assert(kids_entries(p1, kids.skip(pos + 1), h) =~= (kids_entries(p1, kids.skip(pos), h)).skip(
        subtree_entries(p1, kids[pos], h).len() as int,
    )) by {
        lemma_subtree_prefix_stable(
            p0, p1, cl, ci, kids[pos], h, child_lo(keys, lo, pos), child_hi(keys, hi, pos), false,
        );
        lemma_kids_entries_one(p1, kids[pos], h);
        assert(kids_entries(p1, kids.skip(pos), h) =~= subtree_entries(p1, kids[pos], h)
            + kids_entries(p1, kids.skip(pos + 1), h));
    }
    assert(kids_entries(p1, kids.skip(pos + 1), h) == post) by {
        lemma_subtree_prefix_stable(
            p0, p1, cl, ci, kids[pos], h, child_lo(keys, lo, pos), child_hi(keys, hi, pos), false,
        );
    }
    assert(all0 == pre + mid0 + post);
    assert(all1 == pre + mid1 + post);
    // lift the pointwise relation through the unchanged prefix and suffix
    assert forall|e: (u64, u64)| all0.contains(e) && e.0 != k implies all1.contains(e) by {
        lemma_contains_add(pre + mid0, post, e);
        lemma_contains_add(pre, mid0, e);
        lemma_contains_add(pre + mid1, post, e);
        lemma_contains_add(pre, mid1, e);
    }
    assert forall|e: (u64, u64)| all1.contains(e) implies e == (k, v) || all0.contains(e) by {
        lemma_contains_add(pre + mid1, post, e);
        lemma_contains_add(pre, mid1, e);
        lemma_contains_add(pre + mid0, post, e);
        lemma_contains_add(pre, mid0, e);
    }
    assert(all1.contains((k, v))) by {
        lemma_contains_add(pre + mid1, post, (k, v));
        lemma_contains_add(pre, mid1, (k, v));
    }
}

/// The key array with `sk` spliced in at `pos`.
pub open spec fn keys_spliced(keys: Seq<u64>, pos: int, sk: u64) -> Seq<u64> {
    keys.take(pos) + seq![sk] + keys.skip(pos)
}

/// The child array with the child at `pos` rebound to `lid` and `rid`
/// spliced in just after it.
pub open spec fn children_spliced(kids: Seq<PageId>, pos: int, lid: PageId, rid: PageId) -> Seq<
    PageId,
> {
    let c0 = kids.update(pos, lid);
    c0.take(pos + 1) + seq![rid] + c0.skip(pos + 1)
}

/// A split child replaced by its two halves, with the split key spliced into
/// the parent's keys, keeps every child well-formed over its interval and
/// realises the insert relation on the concatenated entries.
#[verifier::rlimit(60)]
pub proof fn lemma_kids_split_insert(
    p0: Seq<Node>,
    p1: Seq<Node>,
    cl: int,
    ci: int,
    keys: Seq<u64>,
    kids: Seq<PageId>,
    pos: int,
    lid: PageId,
    sk: u64,
    rid: PageId,
    h: nat,
    lo: int,
    hi: int,
    k: u64,
    v: u64,
)
    requires
        kids.len() == keys.len() + 1,
        0 <= pos < kids.len(),
        strict_sorted(keys),
        keys_in_range(keys, lo, hi),
        kids_wf(p0, cl, ci, keys, kids, h, lo, hi),
        p0.len() <= p1.len(),
        forall|j: int| 0 <= j < p0.len() ==> p1[j] == p0[j],
        subtree_wf(p1, cl, ci, lid, h, child_lo(keys, lo, pos), sk as int, false),
        subtree_wf(p1, cl, ci, rid, h, sk as int, child_hi(keys, hi, pos), false),
        child_lo(keys, lo, pos) < sk as int,
        (sk as int) < child_hi(keys, hi, pos),
        ins_rel(
            subtree_entries(p0, kids[pos], h),
            subtree_entries(p1, lid, h) + subtree_entries(p1, rid, h),
            k,
            v,
        ),
    ensures
        strict_sorted(keys_spliced(keys, pos, sk)),
        keys_in_range(keys_spliced(keys, pos, sk), lo, hi),
        kids_wf(
            p1,
            cl,
            ci,
            keys_spliced(keys, pos, sk),
            children_spliced(kids, pos, lid, rid),
            h,
            lo,
            hi,
        ),
        ins_rel(
            kids_entries(p0, kids, h),
            kids_entries(p1, children_spliced(kids, pos, lid, rid), h),
            k,
            v,
        ),
{
    let nk = keys_spliced(keys, pos, sk);
    let nc = children_spliced(kids, pos, lid, rid);
    lemma_kids_stable_full(p0, p1, cl, ci, keys, kids, h, lo, hi);
    // index views of the spliced arrays
    assert(nk.len() == keys.len() + 1);
    assert(nc.len() == kids.len() + 1);
    assert(forall|i: int| 0 <= i < pos ==> nk[i] == keys[i]);
    assert(nk[pos] == sk);
    assert(forall|i: int| pos < i < nk.len() ==> nk[i] == keys[i - 1]);
    assert forall|i: int| 0 <= i < nc.len() implies nc[i] == (if i < pos {
        kids[i]
    } else if i == pos {
        lid
    } else if i == pos + 1 {
        rid
    } else {
        kids[i - 1]
    }) by {
        let c0 = kids.update(pos, lid);
        if i <= pos {
            assert(nc[i] == c0.take(pos + 1)[i]);
        } else if i > pos + 1 {
            assert(nc[i] == c0.skip(pos + 1)[i - pos - 2]);
        }
    }
    assert forall|i: int, j: int| 0 <= i < j < nk.len() implies nk[i] < nk[j] by {
        if i == pos && j > pos {
            assert(nk[j] == keys[j - 1]);
            assert(keys[j - 1] >= keys[pos]);
        }
        if j == pos && i < pos {
            assert(nk[i] == keys[i]);
            assert(keys[i] <= keys[pos - 1]);
        }
    }
    assert forall|i: int| 0 <= i < nc.len() implies subtree_wf(
        p1, cl, ci, #[trigger] nc[i], h, child_lo(nk, lo, i), child_hi(nk, hi, i), false,
    ) by {
        if i < pos {
            assert(nc[i] == kids[i]);
            assert(child_lo(nk, lo, i) == child_lo(keys, lo, i));
            assert(child_hi(nk, hi, i) == child_hi(keys, hi, i));
        } else if i == pos {
            assert(child_lo(nk, lo, i) == child_lo(keys, lo, pos));
            assert(child_hi(nk, hi, i) == sk as int);
        } else if i == pos + 1 {
            assert(child_lo(nk, lo, i) == sk as int);
            assert(child_hi(nk, hi, i) == child_hi(keys, hi, pos));
        } else {
            assert(nc[i] == kids[i - 1]);
            assert(child_lo(nk, lo, i) == child_lo(keys, lo, i - 1));
            assert(child_hi(nk, hi, i) == child_hi(keys, hi, i - 1));
        }
    }
    // entries: the prefix and suffix are unchanged, the middle is replaced
    lemma_kids_entries_split(p0, kids, pos, h);
    lemma_kids_entries_split(p0, kids.skip(pos), 1, h);
    assert(kids.skip(pos).take(1) =~= seq![kids[pos]]);
    assert(kids.skip(pos).skip(1) =~= kids.skip(pos + 1));
    lemma_kids_entries_one(p0, kids[pos], h);
    lemma_kids_stable_parts(p0, p1, cl, ci, keys, kids, pos, h, lo, hi);
    lemma_subtree_prefix_stable(
        p0, p1, cl, ci, kids[pos], h, child_lo(keys, lo, pos), child_hi(keys, hi, pos), false,
    );
    lemma_kids_entries_one(p1, kids[pos], h);
    lemma_kids_entries_split(p1, kids.skip(pos), 1, h);
    assert(kids_entries(p1, kids.skip(pos), h) =~= subtree_entries(p1, kids[pos], h)
        + kids_entries(p1, kids.skip(pos + 1), h));
    let pre = kids_entries(p0, kids.take(pos), h);
    let mid0 = subtree_entries(p0, kids[pos], h);
    let post = kids_entries(p0, kids.skip(pos + 1), h);
    let all0 = kids_entries(p0, kids, h);
    assert(all0 == pre + mid0 + post);
    // decompose the new child list
    lemma_kids_entries_split(p1, nc, pos, h);
    assert(nc.take(pos) =~= kids.take(pos));
    lemma_kids_entries_split(p1, nc.skip(pos), 1, h);
    assert(nc.skip(pos).take(1) =~= seq![lid]);
    lemma_kids_entries_one(p1, lid, h);
    lemma_kids_entries_split(p1, nc.skip(pos).skip(1), 1, h);
    assert(nc.skip(pos).skip(1).take(1) =~= seq![rid]);
    assert(nc.skip(pos).skip(1).skip(1) =~= kids.skip(pos + 1));
    lemma_kids_entries_one(p1, rid, h);
    let midl = subtree_entries(p1, lid, h);
    let midr = subtree_entries(p1, rid, h);
    let all1 = kids_entries(p1, nc, h);
    assert(kids_entries(p1, kids.skip(pos + 1), h) == post) by {
        assert(kids_entries(p1, kids.skip(pos), h) == kids_entries(p0, kids.skip(pos), h));
        assert(kids_entries(p0, kids.skip(pos), h) == mid0 + post);
        assert(subtree_entries(p1, kids[pos], h) == mid0);
        assert(kids_entries(p1, kids.skip(pos + 1), h) =~= (mid0 + kids_entries(
            p1,
            kids.skip(pos + 1),
            h,
        )).skip(mid0.len() as int));
        assert(post =~= (mid0 + post).skip(mid0.len() as int));
    }
    assert(kids_entries(p1, nc.skip(pos).skip(1), h) == midr + post);
    assert(kids_entries(p1, nc.skip(pos), h) == midl + (midr + post));
    assert(kids_entries(p1, nc.take(pos), h) == pre);
    assert(all1 == pre + (midl + (midr + post)));
    let mid1 = midl + midr;
    assert(all1 =~= pre + mid1 + post);
    assert forall|e: (u64, u64)| all0.contains(e) && e.0 != k implies all1.contains(e) by {
        lemma_contains_add(pre + mid0, post, e);
        lemma_contains_add(pre, mid0, e);
        lemma_contains_add(pre + mid1, post, e);
        lemma_contains_add(pre, mid1, e);
    }
    assert forall|e: (u64, u64)| all1.contains(e) implies e == (k, v) || all0.contains(e) by {
        lemma_contains_add(pre + mid1, post, e);
        lemma_contains_add(pre, mid1, e);
        lemma_contains_add(pre + mid0, post, e);
        lemma_contains_add(pre, mid0, e);
    }
    assert(all1.contains((k, v))) by {
        lemma_contains_add(pre + mid1, post, (k, v));
        lemma_contains_add(pre, mid1, (k, v));
    }
}

/// Splitting a full parent's arrays at the promoted key `tk[m]` leaves two
/// halves whose children remain well-formed over their intervals and whose
/// entries concatenate to the whole.
pub proof fn lemma_internal_halves(
    p1: Seq<Node>,
    cl: int,
    ci: int,
    tk: Seq<u64>,
    tc: Seq<PageId>,
    m: int,
    h: nat,
    lo: int,
    hi: int,
)
    requires
        tc.len() == tk.len() + 1,
        1 <= m < tk.len(),
        strict_sorted(tk),
        keys_in_range(tk, lo, hi),
        kids_wf(p1, cl, ci, tk, tc, h, lo, hi),
    ensures
        strict_sorted(tk.take(m)),
        strict_sorted(tk.skip(m + 1)),
        keys_in_range(tk.take(m), lo, tk[m] as int),
        keys_in_range(tk.skip(m + 1), tk[m] as int, hi),
        kids_wf(p1, cl, ci, tk.take(m), tc.take(m + 1), h, lo, tk[m] as int),
        kids_wf(p1, cl, ci, tk.skip(m + 1), tc.skip(m + 1), h, tk[m] as int, hi),
        kids_entries(p1, tc, h) == kids_entries(p1, tc.take(m + 1), h) + kids_entries(
            p1,
            tc.skip(m + 1),
            h,
        ),
        lo < tk[m] as int,
        (tk[m] as int) < hi,
{
    let lk = tk.take(m);
    let lc = tc.take(m + 1);
    let rk = tk.skip(m + 1);
    let rc = tc.skip(m + 1);
    assert(lo <= tk[0] < tk[m]);
    assert forall|i: int| 0 <= i < lc.len() implies subtree_wf(
        p1, cl, ci, #[trigger] lc[i], h, child_lo(lk, lo, i), child_hi(lk, tk[m] as int, i), false,
    ) by {
        assert(lc[i] == tc[i]);
        assert(child_lo(lk, lo, i) == child_lo(tk, lo, i));
        assert(child_hi(lk, tk[m] as int, i) == child_hi(tk, hi, i));
    }
    assert forall|i: int| 0 <= i < rc.len() implies subtree_wf(
        p1, cl, ci, #[trigger] rc[i], h, child_lo(rk, tk[m] as int, i), child_hi(rk, hi, i), false,
    ) by {
        assert(rc[i] == tc[m + 1 + i]);
        assert(child_lo(rk, tk[m] as int, i) == child_lo(tk, lo, m + 1 + i));
        assert(child_hi(rk, hi, i) == child_hi(tk, hi, m + 1 + i));
    }
    lemma_kids_entries_split(p1, tc, m + 1, h);
}

/// Decomposition of a child list around the pair at `x`, with range facts
/// for the unchanged prefix and suffix.
proof fn lemma_kids_pair_decompose(
    p: Seq<Node>,
    cl: int,
    ci: int,
    keys: Seq<u64>,
    kids: Seq<PageId>,
    x: int,
    h: nat,
    lo: int,
    hi: int,
)
    requires
        kids.len() == keys.len() + 1,
        0 <= x,
        x + 1 < kids.len(),
        strict_sorted(keys),
        keys_in_range(keys, lo, hi),
        kids_wf(p, cl, ci, keys, kids, h, lo, hi),
    ensures
        kids_entries(p, kids, h) == kids_entries(p, kids.take(x), h) + subtree_entries(
            p,
            kids[x],
            h,
        ) + subtree_entries(p, kids[x + 1], h) + kids_entries(p, kids.skip(x + 2), h),
        entries_in_range(kids_entries(p, kids.take(x), h), lo, child_lo(keys, lo, x)),
        entries_in_range(kids_entries(p, kids.skip(x + 2), h), child_hi(keys, hi, x + 1), hi),
{
    lemma_kids_entries_split(p, kids, x, h);
    lemma_kids_entries_split(p, kids.skip(x), 1, h);
    assert(kids.skip(x).take(1) =~= seq![kids[x]]);
    assert(kids.skip(x).skip(1) =~= kids.skip(x + 1));
    lemma_kids_entries_one(p, kids[x], h);
    lemma_kids_entries_split(p, kids.skip(x + 1), 1, h);
    assert(kids.skip(x + 1).take(1) =~= seq![kids[x + 1]]);
    assert(kids.skip(x + 1).skip(1) =~= kids.skip(x + 2));
    lemma_kids_entries_one(p, kids[x + 1], h);
    lemma_kids_entries_props(p, cl, ci, keys, kids, x, h, lo, hi);
    lemma_kids_skip_props(p, cl, ci, keys, kids, x + 2, h, lo, hi);
    assert(kids_entries(p, kids, h) =~= kids_entries(p, kids.take(x), h) + subtree_entries(
        p,
        kids[x],
        h,
    ) + subtree_entries(p, kids[x + 1], h) + kids_entries(p, kids.skip(x + 2), h));
    assert forall|i: int|
        0 <= i < kids_entries(p, kids.take(x), h).len() implies lo <= (#[trigger] kids_entries(
        p,
        kids.take(x),
        h,
    )[i]).0 < child_lo(keys, lo, x) by {
        if x > 0 {
            assert(child_hi(keys, hi, x - 1) == child_lo(keys, lo, x));
        }
    }
    assert forall|i: int|
        0 <= i < kids_entries(p, kids.skip(x + 2), h).len() implies child_hi(keys, hi, x + 1) <= (
        #[trigger] kids_entries(p, kids.skip(x + 2), h)[i]).0 < hi by {
        if x + 2 < kids.len() {
            assert(child_lo(keys, lo, x + 2) == child_hi(keys, hi, x + 1));
        } else {
            assert(kids.skip(x + 2).len() == 0);
        }
    }
}

/// Lift the delete relation over a concatenation whose prefix and suffix
/// are unchanged and free of the deleted key.
pub proof fn lemma_del_rel_frame(
    pre: Seq<(u64, u64)>,
    mid0: Seq<(u64, u64)>,
    mid1: Seq<(u64, u64)>,
    post: Seq<(u64, u64)>,
    k: u64,
    klo: int,
    khi: int,
)
    requires
        del_rel(mid0, mid1, k),
        entries_in_range(pre, klo, k as int),
        entries_in_range(post, k as int + 1, khi),
    ensures
        del_rel(pre + mid0 + post, pre + mid1 + post, k),
{
    let all0 = pre + mid0 + post;
    let all1 = pre + mid1 + post;
    assert(!kv_has(all1, k)) by {
        if kv_has(all1, k) {
            let i = choose|i: int| 0 <= i < all1.len() && all1[i].0 == k;
            if i < pre.len() {
                assert(pre[i].0 < k);
            } else if i < pre.len() + mid1.len() {
                assert(mid1[i - pre.len()].0 == k);
                assert(kv_has(mid1, k));
            } else {
                assert(post[i - pre.len() - mid1.len()].0 > k);
            }
        }
    }
    assert forall|e: (u64, u64)| all0.contains(e) && e.0 != k implies all1.contains(e) by {
        lemma_contains_add(pre + mid0, post, e);
        lemma_contains_add(pre, mid0, e);
        lemma_contains_add(pre + mid1, post, e);
        lemma_contains_add(pre, mid1, e);
    }
    assert forall|e: (u64, u64)| all1.contains(e) implies all0.contains(e) by {
        lemma_contains_add(pre + mid1, post, e);
        lemma_contains_add(pre, mid1, e);
        lemma_contains_add(pre + mid0, post, e);
        lemma_contains_add(pre, mid0, e);
    }
}

/// Replacing the routed child by one realising the delete relation yields
/// a child list realising it too.
pub proof fn lemma_kids_replace_del(
    p0: Seq<Node>,
    p1: Seq<Node>,
    cl: int,
    ci: int,
    keys: Seq<u64>,
    kids: Seq<PageId>,
    pos: int,
    nid: PageId,
    h: nat,
    lo: int,
    hi: int,
    k: u64,
)
    requires
        kids.len() == keys.len() + 1,
        0 <= pos < kids.len(),
        strict_sorted(keys),
        keys_in_range(keys, lo, hi),
        kids_wf(p0, cl, ci, keys, kids, h, lo, hi),
        p0.len() <= p1.len(),
        forall|j: int| 0 <= j < p0.len() ==> p1[j] == p0[j],
        subtree_wf(p1, cl, ci, nid, h, child_lo(keys, lo, pos), child_hi(keys, hi, pos), false),
        del_rel(subtree_entries(p0, kids[pos], h), subtree_entries(p1, nid, h), k),
        child_lo(keys, lo, pos) <= k as int,
        (k as int) < child_hi(keys, hi, pos),
    ensures
        kids_wf(p1, cl, ci, keys, kids.update(pos, nid), h, lo, hi),
        del_rel(kids_entries(p0, kids, h), kids_entries(p1, kids.update(pos, nid), h), k),
{
    let updated = kids.update(pos, nid);
    lemma_kids_stable_full(p0, p1, cl, ci, keys, kids, h, lo, hi);
    assert forall|i: int| 0 <= i < updated.len() implies subtree_wf(
        p1, cl, ci, #[trigger] updated[i], h, child_lo(keys, lo, i), child_hi(keys, hi, i), false,
    ) by {
        if i != pos {
            assert(updated[i] == kids[i]);
        }
    }
    lemma_kids_entries_split(p0, kids, pos, h);
    lemma_kids_entries_split(p0, kids.skip(pos), 1, h);
    assert(kids.skip(pos).take(1) =~= seq![kids[pos]]);
    assert(kids.skip(pos).skip(1) =~= kids.skip(pos + 1));
    lemma_kids_entries_one(p0, kids[pos], h);
    lemma_kids_stable_parts(p0, p1, cl, ci, keys, kids, pos, h, lo, hi);
    lemma_subtree_prefix_stable(
        p0, p1, cl, ci, kids[pos], h, child_lo(keys, lo, pos), child_hi(keys, hi, pos), false,
    );
    lemma_kids_entries_one(p1, kids[pos], h);
    lemma_kids_entries_split(p1, kids.skip(pos), 1, h);
    lemma_kids_entries_split(p1, updated, pos, h);
    lemma_kids_entries_split(p1, updated.skip(pos), 1, h);
    assert(updated.skip(pos).take(1) =~= seq![nid]);
    assert(updated.skip(pos).skip(1) =~= kids.skip(pos + 1));
    lemma_kids_entries_one(p1, nid, h);
    assert(updated.take(pos) =~= kids.take(pos));
    let pre = kids_entries(p0, kids.take(pos), h);
    let mid0 = subtree_entries(p0, kids[pos], h);
    let mid1 = subtree_entries(p1, nid, h);
    let post = kids_entries(p0, kids.skip(pos + 1), h);
    assert(kids_entries(p1, kids.skip(pos + 1), h) == post) by {
        assert(kids_entries(p1, kids.skip(pos), h) == kids_entries(p0, kids.skip(pos), h));
        assert(kids_entries(p1, kids.skip(pos), h) =~= subtree_entries(p1, kids[pos], h)
            + kids_entries(p1, kids.skip(pos + 1), h));
        assert(kids_entries(p0, kids.skip(pos), h) == mid0 + post);
        assert(kids_entries(p1, kids.skip(pos + 1), h) =~= (mid0 + kids_entries(
            p1,
            kids.skip(pos + 1),
            h,
        )).skip(mid0.len() as int));
        assert(post =~= (mid0 + post).skip(mid0.len() as int));
    }
    assert(kids_entries(p0, kids, h) == pre + mid0 + post);
    assert(kids_entries(p1, updated, h) == pre + (mid1 + post));
    assert(kids_entries(p1, updated, h) =~= pre + mid1 + post);
    lemma_kids_entries_props(p0, cl, ci, keys, kids, pos, h, lo, hi);
    lemma_kids_skip_props(p0, cl, ci, keys, kids, pos + 1, h, lo, hi);
    assert(entries_in_range(pre, lo, child_lo(keys, lo, pos))) by {
        if pos > 0 {
            assert(child_hi(keys, hi, pos - 1) == child_lo(keys, lo, pos));
        }
    }
    assert(entries_in_range(post, child_hi(keys, hi, pos), hi)) by {
        if pos + 1 < kids.len() {
            assert(child_lo(keys, lo, pos + 1) == child_hi(keys, hi, pos));
        }
    }
    lemma_del_rel_frame(pre, mid0, mid1, post, k, lo, hi);
}

/// A borrow through the parent: children `x` and `x + 1` are replaced and
/// the separator between them becomes `ns`; their combined entries realise
/// the delete relation.
pub proof fn lemma_kids_borrow_del(
    p0: Seq<Node>,
    p1: Seq<Node>,
    cl: int,
    ci: int,
    keys: Seq<u64>,
    kids: Seq<PageId>,
    x: int,
    aid: PageId,
    bid: PageId,
    ns: u64,
    h: nat,
    lo: int,
    hi: int,
    k: u64,
)
    requires
        kids.len() == keys.len() + 1,
        0 <= x,
        x + 1 < kids.len(),
        strict_sorted(keys),
        keys_in_range(keys, lo, hi),
        kids_wf(p0, cl, ci, keys, kids, h, lo, hi),
        p0.len() <= p1.len(),
        forall|j: int| 0 <= j < p0.len() ==> p1[j] == p0[j],
        subtree_wf(p1, cl, ci, aid, h, child_lo(keys, lo, x), ns as int, false),
        subtree_wf(p1, cl, ci, bid, h, ns as int, child_hi(keys, hi, x + 1), false),
        child_lo(keys, lo, x) < ns as int,
        (ns as int) < child_hi(keys, hi, x + 1),
        del_rel(
            subtree_entries(p0, kids[x], h) + subtree_entries(p0, kids[x + 1], h),
            subtree_entries(p1, aid, h) + subtree_entries(p1, bid, h),
            k,
        ),
        child_lo(keys, lo, x) <= k as int,
        (k as int) < child_hi(keys, hi, x + 1),
    ensures
        strict_sorted(keys.update(x, ns)),
        keys_in_range(keys.update(x, ns), lo, hi),
        kids_wf(
            p1,
            cl,
            ci,
            keys.update(x, ns),
            kids.update(x, aid).update(x + 1, bid),
            h,
            lo,
            hi,
        ),
        del_rel(
            kids_entries(p0, kids, h),
            kids_entries(p1, kids.update(x, aid).update(x + 1, bid), h),
            k,
        ),
{
    let nk = keys.update(x, ns);
    let nc = kids.update(x, aid).update(x + 1, bid);
    lemma_kids_stable_full(p0, p1, cl, ci, keys, kids, h, lo, hi);
    assert forall|i: int, j: int| 0 <= i < j < nk.len() implies nk[i] < nk[j] by {
        if i == x {
            assert(nk[j] == keys[j]);
            assert((ns as int) < child_hi(keys, hi, x + 1));
            if x + 1 < keys.len() {
                assert(keys[x + 1] <= keys[j]);
            }
        } else if j == x {
            assert(nk[i] == keys[i]);
            assert(child_lo(keys, lo, x) < ns as int);
            assert(keys[i] <= keys[x - 1]);
        }
    }
    assert forall|i: int| 0 <= i < nc.len() implies subtree_wf(
        p1, cl, ci, #[trigger] nc[i], h, child_lo(nk, lo, i), child_hi(nk, hi, i), false,
    ) by {
        if i < x {
            assert(nc[i] == kids[i]);
            assert(child_lo(nk, lo, i) == child_lo(keys, lo, i));
            assert(child_hi(nk, hi, i) == child_hi(keys, hi, i));
        } else if i == x {
            assert(nc[i] == aid);
            assert(child_lo(nk, lo, x) == child_lo(keys, lo, x));
            assert(child_hi(nk, hi, x) == ns as int);
        } else if i == x + 1 {
            assert(nc[i] == bid);
            assert(child_lo(nk, lo, x + 1) == ns as int);
            assert(child_hi(nk, hi, x + 1) == child_hi(keys, hi, x + 1));
        } else {
            assert(nc[i] == kids[i]);
            assert(child_lo(nk, lo, i) == child_lo(keys, lo, i));
            assert(child_hi(nk, hi, i) == child_hi(keys, hi, i));
        }
    }
    lemma_kids_pair_decompose(p0, cl, ci, keys, kids, x, h, lo, hi);
    lemma_kids_pair_decompose(p1, cl, ci, nk, nc, x, h, lo, hi);
    lemma_kids_stable_parts(p0, p1, cl, ci, keys, kids, x, h, lo, hi);
    lemma_kids_stable_parts(p0, p1, cl, ci, keys, kids, x + 2, h, lo, hi);
    assert(nc.take(x) =~= kids.take(x));
    assert(nc.skip(x + 2) =~= kids.skip(x + 2));
    let pre = kids_entries(p1, kids.take(x), h);
    let post = kids_entries(p1, kids.skip(x + 2), h);
    let mid0 = subtree_entries(p0, kids[x], h) + subtree_entries(p0, kids[x + 1], h);
    let mid1 = subtree_entries(p1, aid, h) + subtree_entries(p1, bid, h);
    assert(kids_entries(p0, kids, h) =~= pre + mid0 + post);
    assert(kids_entries(p1, nc, h) =~= pre + mid1 + post);
    lemma_del_rel_frame(pre, mid0, mid1, post, k, lo, hi);
}

/// A merge through the parent: children `x` and `x + 1` collapse into one
/// node and the separator between them disappears.
pub proof fn lemma_kids_merge_del(
    p0: Seq<Node>,
    p1: Seq<Node>,
    cl: int,
    ci: int,
    keys: Seq<u64>,
    kids: Seq<PageId>,
    x: int,
    mid: PageId,
    h: nat,
    lo: int,
    hi: int,
    k: u64,
)
    requires
        kids.len() == keys.len() + 1,
        0 <= x,
        x + 1 < kids.len(),
        strict_sorted(keys),
        keys_in_range(keys, lo, hi),
        kids_wf(p0, cl, ci, keys, kids, h, lo, hi),
        p0.len() <= p1.len(),
        forall|j: int| 0 <= j < p0.len() ==> p1[j] == p0[j],
        subtree_wf(p1, cl, ci, mid, h, child_lo(keys, lo, x), child_hi(keys, hi, x + 1), false),
        del_rel(
            subtree_entries(p0, kids[x], h) + subtree_entries(p0, kids[x + 1], h),
            subtree_entries(p1, mid, h),
            k,
        ),
        child_lo(keys, lo, x) <= k as int,
        (k as int) < child_hi(keys, hi, x + 1),
    ensures
        strict_sorted(keys.take(x) + keys.skip(x + 1)),
        keys_in_range(keys.take(x) + keys.skip(x + 1), lo, hi),
        kids_wf(
            p1,
            cl,
            ci,
            keys.take(x) + keys.skip(x + 1),
            kids.update(x, mid).take(x + 1) + kids.update(x, mid).skip(x + 2),
            h,
            lo,
            hi,
        ),
        (kids.update(x, mid).take(x + 1) + kids.update(x, mid).skip(x + 2)).len() == kids.len()
            - 1,
        del_rel(
            kids_entries(p0, kids, h),
            kids_entries(
                p1,
                kids.update(x, mid).take(x + 1) + kids.update(x, mid).skip(x + 2),
                h,
            ),
            k,
        ),
{
    let nk = keys.take(x) + keys.skip(x + 1);
    let nc = kids.update(x, mid).take(x + 1) + kids.update(x, mid).skip(x + 2);
    lemma_kids_stable_full(p0, p1, cl, ci, keys, kids, h, lo, hi);
    assert(forall|i: int| 0 <= i < x ==> #[trigger] nk[i] == keys[i]);
    assert(forall|i: int| x <= i < nk.len() ==> #[trigger] nk[i] == keys[i + 1]);
    assert forall|i: int| 0 <= i < nc.len() implies #[trigger] nc[i] == (if i < x {
        kids[i]
    } else if i == x {
        mid
    } else {
        kids[i + 1]
    }) by {}
    assert forall|i: int, j: int| 0 <= i < j < nk.len() implies nk[i] < nk[j] by {}
    assert forall|i: int| 0 <= i < nc.len() implies subtree_wf(
        p1, cl, ci, #[trigger] nc[i], h, child_lo(nk, lo, i), child_hi(nk, hi, i), false,
    ) by {
        if i < x {
            assert(nc[i] == kids[i]);
            assert(child_lo(nk, lo, i) == child_lo(keys, lo, i));
            assert(child_hi(nk, hi, i) == child_hi(keys, hi, i));
        } else if i == x {
            assert(nc[i] == mid);
            assert(child_lo(nk, lo, x) == child_lo(keys, lo, x));
            assert(child_hi(nk, hi, x) == child_hi(keys, hi, x + 1));
        } else {
            assert(nc[i] == kids[i + 1]);
            assert(child_lo(nk, lo, i) == child_lo(keys, lo, i + 1));
            assert(child_hi(nk, hi, i) == child_hi(keys, hi, i + 1));
        }
    }
    lemma_kids_pair_decompose(p0, cl, ci, keys, kids, x, h, lo, hi);
    lemma_kids_stable_parts(p0, p1, cl, ci, keys, kids, x, h, lo, hi);
    lemma_kids_stable_parts(p0, p1, cl, ci, keys, kids, x + 2, h, lo, hi);
    assert(nc.take(x) =~= kids.take(x));
    assert(nc.skip(x + 1) =~= kids.skip(x + 2));
    let pre = kids_entries(p1, kids.take(x), h);
    let post = kids_entries(p1, kids.skip(x + 2), h);
    let mid0 = subtree_entries(p0, kids[x], h) + subtree_entries(p0, kids[x + 1], h);
    let mid1 = subtree_entries(p1, mid, h);
    // decompose the new list at x
    lemma_kids_entries_split(p1, nc, x, h);
    lemma_kids_entries_split(p1, nc.skip(x), 1, h);
    assert(nc.skip(x).take(1) =~= seq![mid]);
    assert(nc.skip(x).skip(1) =~= kids.skip(x + 2));
    lemma_kids_entries_one(p1, mid, h);
    assert(kids_entries(p0, kids, h) =~= pre + mid0 + post);
    assert(kids_entries(p1, nc, h) =~= pre + mid1 + post);
    lemma_del_rel_frame(pre, mid0, mid1, post, k, lo, hi);
}

/// An internal node's first key sits strictly above its lower bound,
/// because its first child is a non-empty subtree below that key.
pub proof fn lemma_internal_first_key_gap(
    p: Seq<Node>,
    cl: int,
    ci: int,
    id: PageId,
    h: nat,
    lo: int,
    hi: int,
    is_root: bool,
)
    requires
        subtree_wf(p, cl, ci, id, h, lo, hi, is_root),
        p[id as int] is Internal,
        cl >= 1,
    ensures
        lo < p[id as int]->Internal_0.keys@[0],
{
    let n = p[id as int]->Internal_0;
    assert(subtree_wf(
        p, cl, ci, n.children@[0], (h - 1) as nat, lo, child_hi(n.keys@, hi, 0), false,
    ));
    lemma_wf_entries(p, cl, ci, n.children@[0], (h - 1) as nat, lo, child_hi(n.keys@, hi, 0), false);
    let es = subtree_entries(p, n.children@[0], (h - 1) as nat);
    assert(es.len() >= 1);
    assert(lo <= es[0].0);
    assert((es[0].0 as int) < child_hi(n.keys@, hi, 0));
}

/// Rotating the left sibling's last child into the node preserves each
/// child's well-formedness over the shifted separators, and the combined
/// entries are unchanged.
pub proof fn lemma_rotate_left_kids(
    p: Seq<Node>,
    cl: int,
    ci: int,
    lkeys: Seq<u64>,
    lkids: Seq<PageId>,
    nkeys: Seq<u64>,
    nkids: Seq<PageId>,
    h: nat,
    llo: int,
    sep: u64,
    nhi: int,
)
    requires
        lkids.len() == lkeys.len() + 1,
        nkids.len() == nkeys.len() + 1,
        lkeys.len() >= 2,
        strict_sorted(lkeys),
        keys_in_range(lkeys, llo, sep as int),
        kids_wf(p, cl, ci, lkeys, lkids, h, llo, sep as int),
        kids_wf(p, cl, ci, nkeys, nkids, h, sep as int, nhi),
    ensures
        kids_wf(p, cl, ci, lkeys.drop_last(), lkids.drop_last(), h, llo, lkeys.last() as int),
        kids_wf(
            p,
            cl,
            ci,
            seq![sep] + nkeys,
            seq![lkids.last()] + nkids,
            h,
            lkeys.last() as int,
            nhi,
        ),
        kids_entries(p, lkids.drop_last(), h) + kids_entries(p, seq![lkids.last()] + nkids, h)
            == kids_entries(p, lkids, h) + kids_entries(p, nkids, h),
{
    let ns = lkeys.last();
    let nlk = lkeys.drop_last();
    let nlc = lkids.drop_last();
    let nsk = seq![sep] + nkeys;
    let nsc = seq![lkids.last()] + nkids;
    assert forall|i: int| 0 <= i < nlc.len() implies subtree_wf(
        p, cl, ci, #[trigger] nlc[i], h, child_lo(nlk, llo, i), child_hi(nlk, ns as int, i), false,
    ) by {
        assert(nlc[i] == lkids[i]);
        assert(child_lo(nlk, llo, i) == child_lo(lkeys, llo, i));
        assert(child_hi(nlk, ns as int, i) == child_hi(lkeys, sep as int, i));
    }
    assert forall|i: int| 0 <= i < nsc.len() implies subtree_wf(
        p, cl, ci, #[trigger] nsc[i], h, child_lo(nsk, ns as int, i), child_hi(nsk, nhi, i), false,
    ) by {
        if i == 0 {
            assert(nsc[0] == lkids.last());
            assert(lkids.last() == lkids[lkids.len() - 1]);
            assert(child_lo(nsk, ns as int, 0) == ns as int);
            assert(child_hi(nsk, nhi, 0) == sep as int);
            assert(child_lo(lkeys, llo, lkids.len() - 1) == ns as int);
            assert(child_hi(lkeys, sep as int, lkids.len() - 1) == sep as int);
        } else {
            assert(nsc[i] == nkids[i - 1]);
            assert(child_lo(nsk, ns as int, i) == child_lo(nkeys, sep as int, i - 1));
            assert(child_hi(nsk, nhi, i) == child_hi(nkeys, nhi, i - 1));
        }
    }
    lemma_kids_entries_split(p, nsc, 1, h);
    assert(nsc.take(1) =~= seq![lkids.last()]);
    assert(nsc.skip(1) =~= nkids);
    lemma_kids_entries_one(p, lkids.last(), h);
    assert(kids_entries(p, lkids, h) == kids_entries(p, nlc, h) + subtree_entries(
        p,
        lkids.last(),
        h,
    ));
    assert(kids_entries(p, nlc, h) + kids_entries(p, nsc, h) =~= kids_entries(p, lkids, h)
        + kids_entries(p, nkids, h));
}

/// Rotating the right sibling's first child into the node, symmetrically.
pub proof fn lemma_rotate_right_kids(
    p: Seq<Node>,
    cl: int,
    ci: int,
    nkeys: Seq<u64>,
    nkids: Seq<PageId>,
    rkeys: Seq<u64>,
    rkids: Seq<PageId>,
    h: nat,
    nlo: int,
    sep: u64,
    rhi: int,
)
    requires
        nkids.len() == nkeys.len() + 1,
        rkids.len() == rkeys.len() + 1,
        rkeys.len() >= 2,
        strict_sorted(rkeys),
        keys_in_range(rkeys, sep as int, rhi),
        kids_wf(p, cl, ci, nkeys, nkids, h, nlo, sep as int),
        kids_wf(p, cl, ci, rkeys, rkids, h, sep as int, rhi),
    ensures
        kids_wf(
            p,
            cl,
            ci,
            nkeys + seq![sep],
            nkids + seq![rkids[0]],
            h,
            nlo,
            rkeys[0] as int,
        ),
        kids_wf(p, cl, ci, rkeys.skip(1), rkids.skip(1), h, rkeys[0] as int, rhi),
        kids_entries(p, nkids + seq![rkids[0]], h) + kids_entries(p, rkids.skip(1), h)
            == kids_entries(p, nkids, h) + kids_entries(p, rkids, h),
{
    let ns = rkeys[0];
    let nsk = nkeys + seq![sep];
    let nsc = nkids + seq![rkids[0]];
    let nrk = rkeys.skip(1);
    let nrc = rkids.skip(1);
    assert forall|i: int| 0 <= i < nsc.len() implies subtree_wf(
        p, cl, ci, #[trigger] nsc[i], h, child_lo(nsk, nlo, i), child_hi(nsk, ns as int, i), false,
    ) by {
        if i < nkids.len() {
            assert(nsc[i] == nkids[i]);
            assert(child_lo(nsk, nlo, i) == child_lo(nkeys, nlo, i));
            assert(child_hi(nsk, ns as int, i) == child_hi(nkeys, sep as int, i));
        } else {
            assert(nsc[i] == rkids[0]);
            assert(child_lo(nsk, nlo, i) == sep as int);
            assert(child_hi(nsk, ns as int, i) == ns as int);
            assert(child_lo(rkeys, sep as int, 0) == sep as int);
            assert(child_hi(rkeys, rhi, 0) == ns as int);
        }
    }
    assert forall|i: int| 0 <= i < nrc.len() implies subtree_wf(
        p, cl, ci, #[trigger] nrc[i], h, child_lo(nrk, ns as int, i), child_hi(nrk, rhi, i), false,
    ) by {
        assert(nrc[i] == rkids[i + 1]);
        assert(child_lo(nrk, ns as int, i) == child_lo(rkeys, sep as int, i + 1));
        assert(child_hi(nrk, rhi, i) == child_hi(rkeys, rhi, i + 1));
    }
    lemma_kids_entries_split(p, nsc, nkids.len() as int, h);
    assert(nsc.take(nkids.len() as int) =~= nkids);
    assert(nsc.skip(nkids.len() as int) =~= seq![rkids[0]]);
    lemma_kids_entries_one(p, rkids[0], h);
    lemma_kids_entries_split(p, rkids, 1, h);
    assert(rkids.take(1) =~= seq![rkids[0]]);
    assert(rkids.skip(1) =~= nrc);
    assert(kids_entries(p, nsc, h) + kids_entries(p, nrc, h) =~= kids_entries(p, nkids, h)
        + kids_entries(p, rkids, h));
}

/// Merging two adjacent internal nodes around the parent separator keeps
/// every child well-formed and concatenates the entries.
pub proof fn lemma_merge_kids(
    p: Seq<Node>,
    cl: int,
    ci: int,
    akeys: Seq<u64>,
    akids: Seq<PageId>,
    bkeys: Seq<u64>,
    bkids: Seq<PageId>,
    h: nat,
    alo: int,
    sep: u64,
    bhi: int,
)
    requires
        akids.len() == akeys.len() + 1,
        bkids.len() == bkeys.len() + 1,
        kids_wf(p, cl, ci, akeys, akids, h, alo, sep as int),
        kids_wf(p, cl, ci, bkeys, bkids, h, sep as int, bhi),
    ensures
        kids_wf(p, cl, ci, akeys + seq![sep] + bkeys, akids + bkids, h, alo, bhi),
        kids_entries(p, akids + bkids, h) == kids_entries(p, akids, h) + kids_entries(p, bkids, h),
{
    let mk = akeys + seq![sep] + bkeys;
    let mc = akids + bkids;
    assert forall|i: int| 0 <= i < mc.len() implies subtree_wf(
        p, cl, ci, #[trigger] mc[i], h, child_lo(mk, alo, i), child_hi(mk, bhi, i), false,
    ) by {
        let al = akids.len();
        if i < al {
            assert(mc[i] == akids[i]);
            assert(child_lo(mk, alo, i) == child_lo(akeys, alo, i));
            assert(child_hi(mk, bhi, i) == child_hi(akeys, sep as int, i)) by {
                if i == al - 1 {
                    assert(mk[al - 1] == sep);
                }
            }
        } else {
            assert(mc[i] == bkids[i - al]);
            assert(child_lo(mk, alo, i) == child_lo(bkeys, sep as int, i - al)) by {
                if i == al {
                    assert(mk[al - 1] == sep);
                }
            }
            assert(child_hi(mk, bhi, i) == child_hi(bkeys, bhi, i - al));
        }
    }
    lemma_kids_entries_split(p, mc, akids.len() as int, h);
    assert(mc.take(akids.len() as int) =~= akids);
    assert(mc.skip(akids.len() as int) =~= bkids);
}

/// Routing: when `k` falls in the interval of child `pos`, the whole node's
/// entries carry `k` exactly when that child's do, with the same value.
pub proof fn lemma_route(
    p: Seq<Node>,
    cl: int,
    ci: int,
    id: PageId,
    h: nat,
    lo: int,
    hi: int,
    is_root: bool,
    k: u64,
    pos: int,
)
    requires
        subtree_wf(p, cl, ci, id, h, lo, hi, is_root),
        p[id as int] is Internal,
        0 <= pos < p[id as int]->Internal_0.children@.len(),
        child_lo(p[id as int]->Internal_0.keys@, lo, pos) <= k as int,
        (k as int) < child_hi(p[id as int]->Internal_0.keys@, hi, pos),
    ensures
        kv_has(subtree_entries(p, id, h), k) == kv_has(
            subtree_entries(p, p[id as int]->Internal_0.children@[pos], (h - 1) as nat),
            k,
        ),
        forall|v: u64|
            subtree_entries(p, id, h).contains((k, v)) == subtree_entries(
                p,
                p[id as int]->Internal_0.children@[pos],
                (h - 1) as nat,
            ).contains((k, v)),
{
    let n = p[id as int]->Internal_0;
    let keys = n.keys@;
    let kids = n.children@;
    let hc = (h - 1) as nat;
    lemma_kids_entries_split(p, kids, pos, hc);
    lemma_kids_entries_split(p, kids.skip(pos), 1, hc);
    assert(kids.skip(pos).take(1) =~= seq![kids[pos]]);
    assert(kids.skip(pos).skip(1) =~= kids.skip(pos + 1));
    lemma_kids_entries_one(p, kids[pos], hc);
    lemma_kids_entries_props(p, cl, ci, keys, kids, pos, hc, lo, hi);
    lemma_kids_skip_props(p, cl, ci, keys, kids, pos + 1, hc, lo, hi);
    let pre = kids_entries(p, kids.take(pos), hc);
    let mid = subtree_entries(p, kids[pos], hc);
    let post = kids_entries(p, kids.skip(pos + 1), hc);
    let all = subtree_entries(p, id, h);
    assert(all =~= pre + mid + post);
    // every entry of the prefix is below k, every entry of the suffix above
    assert(pos >= 1 ==> child_hi(keys, hi, pos - 1) == child_lo(keys, lo, pos));
    assert(entries_in_range(pre, lo, child_lo(keys, lo, pos)));
    assert(pos + 1 < kids.len() ==> child_lo(keys, lo, pos + 1) == child_hi(keys, hi, pos));
    assert(entries_in_range(post, child_hi(keys, hi, pos), hi));
    assert forall|v: u64| all.contains((k, v)) == mid.contains((k, v)) by {
        if all.contains((k, v)) {
            let i = choose|i: int| 0 <= i < all.len() && all[i] == (k, v);
            if i < pre.len() {
                assert(pre[i].0 < k);
                assert(false);
            } else if i < pre.len() + mid.len() {
                assert(mid[i - pre.len()] == (k, v));
                assert(mid.contains((k, v)));
            } else {
                assert(post[i - pre.len() - mid.len()].0 > k);
                assert(false);
            }
        }
        if mid.contains((k, v)) {
            let i = choose|i: int| 0 <= i < mid.len() && mid[i] == (k, v);
            assert(all[pre.len() + i] == (k, v));
            assert(all.contains((k, v)));
        }
    }
    assert(kv_has(all, k) == kv_has(mid, k)) by {
        if kv_has(all, k) {
            let i = choose|i: int| 0 <= i < all.len() && all[i].0 == k;
            if i < pre.len() {
                assert(pre[i].0 < k);
                assert(false);
            } else if i < pre.len() + mid.len() {
                assert(mid[i - pre.len()].0 == k);
            } else {
                assert(post[i - pre.len() - mid.len()].0 > k);
                assert(false);
            }
        }
        if kv_has(mid, k) {
            let i = choose|i: int| 0 <= i < mid.len() && mid[i].0 == k;
            assert(all[pre.len() + i].0 == k);
        }
    }
}

/// Law: after an insert of `(k, v)`, a lookup of `k` finds exactly `v`,
/// and a lookup of any other key finds exactly what it found before.
pub proof fn lemma_insert_lookup(
    e0: Seq<(u64, u64)>,
    e1: Seq<(u64, u64)>,
    k: u64,
    v: u64,
    k2: u64,
    v2: u64,
)
    requires
        ins_rel(e0, e1, k, v),
    ensures
        e1.contains((k, v)),
        k2 != k ==> (e1.contains((k2, v2)) <==> e0.contains((k2, v2))),
        k2 != k ==> (kv_has(e1, k2) <==> kv_has(e0, k2)),
{
    if k2 != k {
        if kv_has(e0, k2) {
            let i = choose|i: int| 0 <= i < e0.len() && e0[i].0 == k2;
            assert(e0.contains(e0[i]));
            assert(e1.contains(e0[i]));
            let j = choose|j: int| 0 <= j < e1.len() && e1[j] == e0[i];
            assert(e1[j].0 == k2);
        }
        if kv_has(e1, k2) {
            let i = choose|i: int| 0 <= i < e1.len() && e1[i].0 == k2;
            assert(e1.contains(e1[i]));
            assert(e0.contains(e1[i]));
            let j = choose|j: int| 0 <= j < e0.len() && e0[j] == e1[i];
            assert(e0[j].0 == k2);
        }
    }
}

/// Law: inserting a key and then deleting it leaves a tree that holds
/// exactly the original entries apart from that key; when the key was
/// absent to begin with, exactly the original entries.
pub proof fn lemma_insert_then_delete(
    e0: Seq<(u64, u64)>,
    e1: Seq<(u64, u64)>,
    e2: Seq<(u64, u64)>,
    k: u64,
    v: u64,
)
    requires
        ins_rel(e0, e1, k, v),
        del_rel(e1, e2, k),
    ensures
        del_rel(e0, e2, k),
        !kv_has(e0, k) ==> (forall|e: (u64, u64)| e0.contains(e) <==> e2.contains(e)),
{
    assert forall|e: (u64, u64)| e2.contains(e) implies e0.contains(e) by {
        assert(e1.contains(e));
        if e == (k, v) {
            let i = choose|i: int| 0 <= i < e2.len() && e2[i] == e;
            assert(e2[i].0 == k);
            assert(kv_has(e2, k));
        }
    }
    assert forall|e: (u64, u64)| e0.contains(e) && e.0 != k implies e2.contains(e) by {
        assert(e1.contains(e));
    }
    if !kv_has(e0, k) {
        assert forall|e: (u64, u64)| e0.contains(e) implies e2.contains(e) by {
            if e.0 == k {
                let i = choose|i: int| 0 <= i < e0.len() && e0[i] == e;
                assert(e0[i].0 == k);
            }
        }
    }
}

/// Binary search over the packed key array: `Ok` carries the position of an
/// equal key, `Err` the insertion position.
pub fn binary_search_keys(keys: &Vec<u64>, key: u64) -> (r: Result<usize, usize>)
    requires
        strict_sorted(keys@),
    ensures
        match r {
            Ok(i) => i < keys@.len() && keys@[i as int] == key,
            Err(i) => {
                &&& i <= keys@.len()
                &&& forall|j: int| 0 <= j < i ==> keys@[j] < key
                &&& forall|j: int| i <= j < keys@.len() ==> keys@[j] > key
            },
        },
{
    let mut lo: usize = 0;
    let mut hi: usize = keys.len();
    while lo < hi
        invariant
            lo <= hi <= keys@.len(),
            strict_sorted(keys@),
            forall|j: int| 0 <= j < lo ==> keys@[j] < key,
            forall|j: int| hi <= j < keys@.len() ==> keys@[j] > key,
        decreases hi - lo,
    {
        let mid: usize = lo + (hi - lo) / 2;
        let v = keys[mid];
        if v == key {
            return Ok(mid);
        } else if v < key {
            lo = mid + 1;
        } else {
            hi = mid;
        }
    }
    Err(lo)
}

} // verus!
