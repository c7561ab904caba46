//! Leaf mutations. Every operation is copy-on-write: it never touches the
//! node it was given and instead returns the node(s) that fresh pages will
//! hold, together with the split key or the new separator where one applies.

use vstd::prelude::*;

use crate::BTreeStoreError;
use crate::arrayview::{array_concat, array_insert_at, array_remove_at, array_skip, array_take};
use crate::node::{
    binary_search_keys, del_rel, entry_seq, ins_rel, kv_has, min_leaf, strict_sorted, LeafNode,
};

verus! {

/// Outcome of a leaf insert: inserted in place, refused because the key was
/// present, or split with the given split key and right sibling.
pub enum LeafInsertStatus {
    Inserted(LeafNode),
    DuplicatedKey,
    Split(u64, LeafNode, LeafNode),
}

/// Outcome of a leaf delete: removed with the node still at least half-full,
/// removed leaving the node underfull, or the key was absent.
pub enum LeafDeleteStatus {
    Removed(LeafNode),
    NeedsRebalance(LeafNode),
    NotFound,
}

/// A sound leaf shape: parallel arrays, strictly ascending keys.
pub open spec fn leaf_sound(l: LeafNode, cap: int) -> bool {
    &&& l.values@.len() == l.keys@.len()
    &&& l.keys@.len() <= cap
    &&& strict_sorted(l.keys@)
}

/// Every key of `s` is a member of `base` or equals `extra`.
pub open spec fn keys_from(s: Seq<u64>, base: Seq<u64>, extra: u64) -> bool {
    forall|i: int| 0 <= i < s.len() ==> #[trigger] s[i] == extra || base.contains(s[i])
}

/// Every key of `s` is a member of `base`.
pub open spec fn keys_sub(s: Seq<u64>, base: Seq<u64>) -> bool {
    forall|i: int| 0 <= i < s.len() ==> base.contains(#[trigger] s[i])
}

/// Insert `(key, value)`, splitting when the leaf is full. The split key is
/// the first key of the right sibling, so the parent routes keys at or above
/// it to the right child.
pub fn leaf_insert(l: &LeafNode, key: u64, value: u64, cap: usize) -> (r: LeafInsertStatus)
    requires
        leaf_sound(*l, cap as int),
        cap >= 2,
    ensures
        match r {
            LeafInsertStatus::DuplicatedKey => kv_has(entry_seq(*l), key),
            LeafInsertStatus::Inserted(nl) => {
                &&& !kv_has(entry_seq(*l), key)
                &&& l.keys@.len() < cap
                &&& nl.values@.len() == nl.keys@.len()
                &&& nl.keys@.len() == l.keys@.len() + 1
                &&& strict_sorted(nl.keys@)
                &&& ins_rel(entry_seq(*l), entry_seq(nl), key, value)
                &&& keys_from(nl.keys@, l.keys@, key)
            },
            LeafInsertStatus::Split(sk, nl, nr) => {
                &&& !kv_has(entry_seq(*l), key)
                &&& l.keys@.len() == cap
                &&& nl.values@.len() == nl.keys@.len()
                &&& nr.values@.len() == nr.keys@.len()
                &&& nl.keys@.len() == min_leaf(cap as int)
                &&& nr.keys@.len() == cap + 1 - min_leaf(cap as int)
                &&& strict_sorted(nl.keys@)
                &&& strict_sorted(nr.keys@)
                &&& nr.keys@.len() >= 1
                &&& sk == nr.keys@[0]
                &&& forall|i: int| 0 <= i < nl.keys@.len() ==> nl.keys@[i] < sk
                &&& forall|i: int| 0 <= i < nr.keys@.len() ==> nr.keys@[i] >= sk
                &&& ins_rel(entry_seq(*l), entry_seq(nl) + entry_seq(nr), key, value)
                &&& keys_from(nl.keys@, l.keys@, key)
                &&& keys_from(nr.keys@, l.keys@, key)
            },
        },
{
    let pos = match binary_search_keys(&l.keys, key) {
        Ok(i) => {
            proof {
                assert(entry_seq(*l)[i as int].0 == key);
            }
            return LeafInsertStatus::DuplicatedKey;
        },
        Err(p) => p,
    };
    proof {
        assert(!kv_has(entry_seq(*l), key)) by {
            if kv_has(entry_seq(*l), key) {
                let i = choose|i: int| 0 <= i < entry_seq(*l).len() && entry_seq(*l)[i].0 == key;
                assert(l.keys@[i] == key);
            }
        }
    }
    let tk = array_insert_at(&l.keys, pos, key);
    let tv = array_insert_at(&l.values, pos, value);
    let ghost e0 = entry_seq(*l);
    let ghost p = pos as int;
    let ghost full = LeafNode { keys: tk, values: tv };
    proof {
        lemma_leaf_inserted_shape(*l, full, p, key, value);
    }
    if tk.len() <= cap {
        let nl = LeafNode { keys: tk, values: tv };
        proof {
            lemma_ins_rel_of_inserted(e0, entry_seq(nl), p, key, value);
        }
        LeafInsertStatus::Inserted(nl)
    } else {
        let m = (cap + 1) / 2;
        let lk = array_take(&tk, m);
        let lv = array_take(&tv, m);
        let rk = array_skip(&tk, m);
        let rv = array_skip(&tv, m);
        let sk = rk[0];
        let nl = LeafNode { keys: lk, values: lv };
        let nr = LeafNode { keys: rk, values: rv };
        proof {
            let e1 = entry_seq(full);
            assert(entry_seq(nl) =~= e1.take(m as int));
            assert(entry_seq(nr) =~= e1.skip(m as int));
            assert(entry_seq(nl) + entry_seq(nr) =~= e1);
            lemma_ins_rel_of_inserted(e0, e1, p, key, value);
            assert forall|i: int| 0 <= i < nl.keys@.len() implies nl.keys@[i] < sk by {
                assert(nl.keys@[i] == tk@[i]);
                assert(sk == tk@[m as int]);
            }
            assert forall|i: int| 0 <= i < nr.keys@.len() implies nr.keys@[i] >= sk by {
                assert(nr.keys@[i] == tk@[m + i]);
            }
            assert(keys_from(full.keys@, l.keys@, key));
            assert forall|i: int| 0 <= i < nl.keys@.len() implies #[trigger] nl.keys@[i] == key
                || l.keys@.contains(nl.keys@[i]) by {
                assert(nl.keys@[i] == full.keys@[i]);
            }
            assert forall|i: int| 0 <= i < nr.keys@.len() implies #[trigger] nr.keys@[i] == key
                || l.keys@.contains(nr.keys@[i]) by {
                assert(nr.keys@[i] == full.keys@[m + i]);
            }
        }
        LeafInsertStatus::Split(sk, nl, nr)
    }
}

/// Shape facts about the array with `(key, value)` inserted at `p`: parallel
/// lengths, strict ordering, and key provenance.
proof fn lemma_leaf_inserted_shape(l: LeafNode, full: LeafNode, p: int, key: u64, value: u64)
    requires
        l.values@.len() == l.keys@.len(),
        strict_sorted(l.keys@),
        0 <= p <= l.keys@.len(),
        forall|j: int| 0 <= j < p ==> l.keys@[j] < key,
        forall|j: int| p <= j < l.keys@.len() ==> l.keys@[j] > key,
        full.keys@ == l.keys@.take(p) + seq![key] + l.keys@.skip(p),
        full.values@ == l.values@.take(p) + seq![value] + l.values@.skip(p),
    ensures
        full.keys@.len() == l.keys@.len() + 1,
        full.values@.len() == full.keys@.len(),
        strict_sorted(full.keys@),
        keys_from(full.keys@, l.keys@, key),
        full.keys@[p] == key,
        forall|i: int| 0 <= i < p ==> #[trigger] full.keys@[i] == l.keys@[i],
        forall|i: int| p < i < full.keys@.len() ==> #[trigger] full.keys@[i] == l.keys@[i - 1],
        entry_seq(full) == entry_seq(l).take(p) + seq![(key, value)] + entry_seq(l).skip(p),
{
    assert forall|i: int, j: int| 0 <= i < j < full.keys@.len() implies full.keys@[i]
        < full.keys@[j] by {
        if i < p {
            assert(full.keys@[i] == l.keys@[i]);
        } else if i == p {
            assert(full.keys@[i] == key);
        } else {
            assert(full.keys@[i] == l.keys@[i - 1]);
        }
        if j < p {
            assert(full.keys@[j] == l.keys@[j]);
        } else if j == p {
            assert(full.keys@[j] == key);
        } else {
            assert(full.keys@[j] == l.keys@[j - 1]);
        }
    }
    assert forall|i: int| 0 <= i < full.keys@.len() implies #[trigger] full.keys@[i] == key
        || l.keys@.contains(full.keys@[i]) by {
        if i < p {
            assert(full.keys@[i] == l.keys@[i]);
        } else if i > p {
            assert(full.keys@[i] == l.keys@[i - 1]);
        }
    }
    assert(entry_seq(full) =~= entry_seq(l).take(p) + seq![(key, value)] + entry_seq(l).skip(p));
}

/// An entry sequence with one pair spliced in realises the insert relation.
proof fn lemma_ins_rel_of_inserted(e0: Seq<(u64, u64)>, e1: Seq<(u64, u64)>, p: int, key: u64, value: u64)
    requires
        0 <= p <= e0.len(),
        e1 == e0.take(p) + seq![(key, value)] + e0.skip(p),
    ensures
        ins_rel(e0, e1, key, value),
{
    assert(e1[p] == (key, value));
    assert(e1.contains((key, value)));
    assert forall|e: (u64, u64)| e0.contains(e) && e.0 != key implies e1.contains(e) by {
        let i = choose|i: int| 0 <= i < e0.len() && e0[i] == e;
        if i < p {
            assert(e1[i] == e);
        } else {
            assert(e1[i + 1] == e);
        }
    }
    assert forall|e: (u64, u64)| e1.contains(e) implies e == (key, value) || e0.contains(e) by {
        let i = choose|i: int| 0 <= i < e1.len() && e1[i] == e;
        if i < p {
            assert(e0[i] == e);
        } else if i > p {
            assert(e0[i - 1] == e);
        }
    }
}

/// Delete `key` from the leaf, reporting whether the node is still at least
/// half-full. Absent keys change nothing.
pub fn leaf_delete(l: &LeafNode, key: u64, cap: usize) -> (r: LeafDeleteStatus)
    requires
        leaf_sound(*l, cap as int),
        cap >= 2,
    ensures
        match r {
            LeafDeleteStatus::NotFound => !kv_has(entry_seq(*l), key),
            LeafDeleteStatus::Removed(nl) => {
                &&& kv_has(entry_seq(*l), key)
                &&& nl.values@.len() == nl.keys@.len()
                &&& nl.keys@.len() == l.keys@.len() - 1
                &&& nl.keys@.len() >= min_leaf(cap as int)
                &&& strict_sorted(nl.keys@)
                &&& del_rel(entry_seq(*l), entry_seq(nl), key)
                &&& keys_sub(nl.keys@, l.keys@)
            },
            LeafDeleteStatus::NeedsRebalance(nl) => {
                &&& kv_has(entry_seq(*l), key)
                &&& nl.values@.len() == nl.keys@.len()
                &&& nl.keys@.len() == l.keys@.len() - 1
                &&& nl.keys@.len() < min_leaf(cap as int)
                &&& strict_sorted(nl.keys@)
                &&& del_rel(entry_seq(*l), entry_seq(nl), key)
                &&& keys_sub(nl.keys@, l.keys@)
            },
        },
{
    let pos = match binary_search_keys(&l.keys, key) {
        Ok(p) => p,
        Err(_) => {
            proof {
                assert(!kv_has(entry_seq(*l), key)) by {
                    if kv_has(entry_seq(*l), key) {
                        let i = choose|i: int|
                            0 <= i < entry_seq(*l).len() && entry_seq(*l)[i].0 == key;
                        assert(l.keys@[i] == key);
                    }
                }
            }
            return LeafDeleteStatus::NotFound;
        },
    };
    let nk = array_remove_at(&l.keys, pos);
    let nv = array_remove_at(&l.values, pos);
    let nl = LeafNode { keys: nk, values: nv };
    let ghost e0 = entry_seq(*l);
    let ghost e1 = entry_seq(nl);
    let ghost p = pos as int;
    proof {
        assert(e0[p].0 == key);
        assert(kv_has(e0, key));
        assert(e1 =~= e0.take(p) + e0.skip(p + 1));
        assert forall|i: int, j: int| 0 <= i < j < nl.keys@.len() implies nl.keys@[i]
            < nl.keys@[j] by {
            assert(nl.keys@[i] == if i < p { l.keys@[i] } else { l.keys@[i + 1] });
            assert(nl.keys@[j] == if j < p { l.keys@[j] } else { l.keys@[j + 1] });
        }
        assert forall|i: int| 0 <= i < nl.keys@.len() implies l.keys@.contains(
            #[trigger] nl.keys@[i],
        ) by {
            if i < p {
                assert(nl.keys@[i] == l.keys@[i]);
            } else {
                assert(nl.keys@[i] == l.keys@[i + 1]);
            }
        }
        assert(!kv_has(e1, key)) by {
            if kv_has(e1, key) {
                let i = choose|i: int| 0 <= i < e1.len() && e1[i].0 == key;
                if i < p {
                    assert(e0[i].0 == key);
                    assert(strict_sorted(l.keys@));
                    assert(l.keys@[i] < l.keys@[p]);
                } else {
                    assert(e0[i + 1].0 == key);
                    assert(l.keys@[p] < l.keys@[i + 1]);
                }
            }
        }
        assert forall|e: (u64, u64)| e0.contains(e) && e.0 != key implies e1.contains(e) by {
            let i = choose|i: int| 0 <= i < e0.len() && e0[i] == e;
            if i < p {
                assert(e1[i] == e);
            } else if i > p {
                assert(e1[i - 1] == e);
            }
        }
        assert forall|e: (u64, u64)| e1.contains(e) implies e0.contains(e) by {
            let i = choose|i: int| 0 <= i < e1.len() && e1[i] == e;
            if i < p {
                assert(e0[i] == e);
            } else {
                assert(e0[i + 1] == e);
            }
        }
    }
    if nl.keys.len() >= min_leaf_cap(cap) {
        LeafDeleteStatus::Removed(nl)
    } else {
        LeafDeleteStatus::NeedsRebalance(nl)
    }
}

/// A fresh copy of a leaf, for rebalancing against a stored sibling.
pub fn clone_leaf(l: &LeafNode) -> (r: LeafNode)
    ensures
        r.keys@ == l.keys@,
        r.values@ == l.values@,
{
    let r = LeafNode {
        keys: array_take(&l.keys, l.keys.len()),
        values: array_take(&l.values, l.values.len()),
    };
    proof {
        assert(r.keys@ =~= l.keys@);
        assert(r.values@ =~= l.values@);
    }
    r
}

/// Executable minimum occupancy of a leaf.
pub fn min_leaf_cap(cap: usize) -> (r: usize)
    ensures
        r == min_leaf(cap as int),
{
    cap / 2 + cap % 2
}

/// How an underfull node is to be repaired, given its immediate siblings.
pub enum RebalanceResult {
    TakeFromLeft,
    TakeFromRight,
    MergeIntoLeft,
    MergeIntoSelf,
}

/// Pick the repair: prefer borrowing over merging; when both siblings can
/// lend, prefer the left; when both require merging, merge with the left.
/// A node with no sibling at all cannot be repaired.
pub fn rebalance_decision(
    has_left: bool,
    left_len: usize,
    has_right: bool,
    right_len: usize,
    min: usize,
) -> (r: Result<RebalanceResult, BTreeStoreError>)
    ensures
        match r {
            Ok(d) => match d {
                RebalanceResult::TakeFromLeft => has_left && left_len > min,
                RebalanceResult::TakeFromRight => !(has_left && left_len > min) && has_right
                    && right_len > min,
                RebalanceResult::MergeIntoLeft => has_left && left_len <= min && !(has_right
                    && right_len > min),
                RebalanceResult::MergeIntoSelf => !has_left && has_right && right_len <= min,
            },
            Err(e) => e == BTreeStoreError::InvariantViolation && !has_left && !has_right,
        },
{
    if has_left && left_len > min {
        Ok(RebalanceResult::TakeFromLeft)
    } else if has_right && right_len > min {
        Ok(RebalanceResult::TakeFromRight)
    } else if has_left {
        Ok(RebalanceResult::MergeIntoLeft)
    } else if has_right {
        Ok(RebalanceResult::MergeIntoSelf)
    } else {
        Err(BTreeStoreError::InvariantViolation)
    }
}

/// Rotate the largest entry of the left sibling into the front of the
/// underfull node; the moved key becomes the new separator.
pub fn leaf_take_from_left(left: &LeafNode, node: &LeafNode) -> (r: (u64, LeafNode, LeafNode))
    requires
        left.values@.len() == left.keys@.len(),
        node.values@.len() == node.keys@.len(),
        left.keys@.len() >= 2,
        strict_sorted(left.keys@),
        strict_sorted(node.keys@),
        forall|i: int, j: int|
            0 <= i < left.keys@.len() && 0 <= j < node.keys@.len() ==> left.keys@[i]
                < node.keys@[j],
    ensures
        ({
            let (ns, nleft, nself) = r;
            &&& ns == left.keys@.last()
            &&& nleft.keys@ == left.keys@.drop_last()
            &&& nleft.values@ == left.values@.drop_last()
            &&& nself.keys@ == seq![left.keys@.last()] + node.keys@
            &&& nself.values@ == seq![left.values@.last()] + node.values@
            &&& nleft.keys@.len() == left.keys@.len() - 1
            &&& nself.keys@.len() == node.keys@.len() + 1
            &&& nleft.values@.len() == nleft.keys@.len()
            &&& nself.values@.len() == nself.keys@.len()
            &&& strict_sorted(nleft.keys@)
            &&& strict_sorted(nself.keys@)
            &&& forall|i: int| 0 <= i < nleft.keys@.len() ==> nleft.keys@[i] < ns
            &&& forall|i: int| 0 <= i < nself.keys@.len() ==> nself.keys@[i] >= ns
            &&& entry_seq(nleft) + entry_seq(nself) == entry_seq(*left) + entry_seq(*node)
        }),
{
    let last = left.keys.len() - 1;
    let mk = left.keys[last];
    let mv = left.values[last];
    let nleft = LeafNode { keys: array_take(&left.keys, last), values: array_take(&left.values, last) };
    let one_k = array_insert_at(&node.keys, 0, mk);
    let one_v = array_insert_at(&node.values, 0, mv);
    let nself = LeafNode { keys: one_k, values: one_v };
    proof {
        assert(nleft.keys@ =~= left.keys@.drop_last());
        assert(nleft.values@ =~= left.values@.drop_last());
        assert(nself.keys@ =~= seq![left.keys@.last()] + node.keys@);
        assert(nself.values@ =~= seq![left.values@.last()] + node.values@);
        assert(entry_seq(nleft) + entry_seq(nself) =~= entry_seq(*left) + entry_seq(*node));
        assert forall|i: int| 0 <= i < nself.keys@.len() implies nself.keys@[i] >= mk by {
            if i > 0 {
                assert(nself.keys@[i] == node.keys@[i - 1]);
                assert(left.keys@[last as int] < node.keys@[i - 1]);
            }
        }
    }
    (mk, nleft, nself)
}

/// Rotate the smallest entry of the right sibling onto the back of the
/// underfull node; the right sibling's next key becomes the new separator.
pub fn leaf_take_from_right(node: &LeafNode, right: &LeafNode) -> (r: (u64, LeafNode, LeafNode))
    requires
        node.values@.len() == node.keys@.len(),
        right.values@.len() == right.keys@.len(),
        right.keys@.len() >= 2,
        strict_sorted(node.keys@),
        strict_sorted(right.keys@),
        forall|i: int, j: int|
            0 <= i < node.keys@.len() && 0 <= j < right.keys@.len() ==> node.keys@[i]
                < right.keys@[j],
    ensures
        ({
            let (ns, nself, nright) = r;
            &&& ns == right.keys@[1]
            &&& nself.keys@ == node.keys@ + seq![right.keys@[0]]
            &&& nself.values@ == node.values@ + seq![right.values@[0]]
            &&& nright.keys@ == right.keys@.skip(1)
            &&& nright.values@ == right.values@.skip(1)
            &&& nself.keys@.len() == node.keys@.len() + 1
            &&& nright.keys@.len() == right.keys@.len() - 1
            &&& nself.values@.len() == nself.keys@.len()
            &&& nright.values@.len() == nright.keys@.len()
            &&& strict_sorted(nself.keys@)
            &&& strict_sorted(nright.keys@)
            &&& forall|i: int| 0 <= i < nself.keys@.len() ==> nself.keys@[i] < ns
            &&& forall|i: int| 0 <= i < nright.keys@.len() ==> nright.keys@[i] >= ns
            &&& entry_seq(nself) + entry_seq(nright) == entry_seq(*node) + entry_seq(*right)
        }),
{
    let mk = right.keys[0];
    let mv = right.values[0];
    let ns = right.keys[1];
    let mut sk = array_take(&node.keys, node.keys.len());
    let mut sv = array_take(&node.values, node.values.len());
    sk.push(mk);
    sv.push(mv);
    let nself = LeafNode { keys: sk, values: sv };
    let nright = LeafNode { keys: array_skip(&right.keys, 1), values: array_skip(&right.values, 1) };
    proof {
        assert(node.keys@.take(node.keys@.len() as int) =~= node.keys@);
        assert(node.values@.take(node.values@.len() as int) =~= node.values@);
        assert(nself.keys@ =~= node.keys@ + seq![right.keys@[0]]);
        assert(nself.values@ =~= node.values@ + seq![right.values@[0]]);
        assert(entry_seq(nself) + entry_seq(nright) =~= entry_seq(*node) + entry_seq(*right));
        assert forall|i: int| 0 <= i < nself.keys@.len() implies nself.keys@[i] < ns by {
            if i < node.keys@.len() {
                assert(nself.keys@[i] == node.keys@[i]);
                assert(node.keys@[i] < right.keys@[1]);
            } else {
                assert(nself.keys@[i] == right.keys@[0]);
            }
        }
        assert forall|i: int| 0 <= i < nright.keys@.len() implies nright.keys@[i] >= ns by {
            assert(nright.keys@[i] == right.keys@[i + 1]);
        }
    }
    (ns, nself, nright)
}

/// Concatenate two adjacent leaves into one; used both to merge an underfull
/// node into its left sibling and to absorb the right sibling into the node.
pub fn leaf_merge(a: &LeafNode, b: &LeafNode) -> (m: LeafNode)
    requires
        a.values@.len() == a.keys@.len(),
        b.values@.len() == b.keys@.len(),
        strict_sorted(a.keys@),
        strict_sorted(b.keys@),
        forall|i: int, j: int|
            0 <= i < a.keys@.len() && 0 <= j < b.keys@.len() ==> a.keys@[i] < b.keys@[j],
    ensures
        m.keys@ == a.keys@ + b.keys@,
        m.values@ == a.values@ + b.values@,
        m.keys@.len() == a.keys@.len() + b.keys@.len(),
        m.values@.len() == m.keys@.len(),
        strict_sorted(m.keys@),
        entry_seq(m) == entry_seq(*a) + entry_seq(*b),
{
    let m = LeafNode {
        keys: array_concat(&a.keys, &b.keys),
        values: array_concat(&a.values, &b.values),
    };
    proof {
        assert(entry_seq(m) =~= entry_seq(*a) + entry_seq(*b));
    }
    m
}

} // verus!
