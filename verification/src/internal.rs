//! Internal-node mutations: routing-key insertion with splits, paired
//! key/child deletion, and the rotation and merge primitives that repair an
//! underfull node through its parent's separator. All operations are
//! copy-on-write and return the nodes that fresh pages will hold.

use vstd::prelude::*;

use crate::arrayview::{array_concat, array_insert_at, array_set, array_skip, array_take};
use crate::node::{children_spliced, keys_spliced, min_internal, strict_sorted, InternalNode};
use crate::PageId;

verus! {

/// Outcome of inserting a routing key: fitted in place, or split around a
/// promoted middle key.
pub enum InternalInsertStatus {
    Inserted(InternalNode),
    Split(u64, InternalNode, InternalNode),
}

/// Outcome of deleting a routing key and its right child pointer.
pub enum InternalDeleteStatus {
    Removed(InternalNode),
    NeedsRebalance(InternalNode),
}

/// A sound internal shape: one more child than keys, strictly ascending keys.
pub open spec fn internal_sound(n: InternalNode, cap: int) -> bool {
    &&& n.children@.len() == n.keys@.len() + 1
    &&& 1 <= n.keys@.len() <= cap
    &&& strict_sorted(n.keys@)
}

/// A fresh copy of an internal node, for rebalancing against a stored
/// sibling.
pub fn clone_internal(n: &InternalNode) -> (r: InternalNode)
    ensures
        r.keys@ == n.keys@,
        r.children@ == n.children@,
{
    let r = InternalNode {
        keys: array_take(&n.keys, n.keys.len()),
        children: array_take(&n.children, n.children.len()),
    };
    proof {
        assert(r.keys@ =~= n.keys@);
        assert(r.children@ =~= n.children@);
    }
    r
}

/// Executable minimum key count of an internal node.
pub fn min_internal_cap(cap: usize) -> (r: usize)
    ensures
        r == min_internal(cap as int),
{
    cap / 2
}

/// Insert the separator `sk` at `pos`, rebinding the split child to
/// `left_id` and `right_id`. When the node is full, it splits and promotes
/// its middle key to the parent.
pub fn internal_insert(
    n: &InternalNode,
    pos: usize,
    left_id: PageId,
    sk: u64,
    right_id: PageId,
    cap: usize,
) -> (r: InternalInsertStatus)
    requires
        internal_sound(*n, cap as int),
        cap >= 2,
        pos <= n.keys@.len(),
        pos == 0 || n.keys@[pos - 1] < sk,
        pos == n.keys@.len() || sk < n.keys@[pos as int],
    ensures
        match r {
            InternalInsertStatus::Inserted(nn) => {
                &&& n.keys@.len() < cap
                &&& nn.keys@ == keys_spliced(n.keys@, pos as int, sk)
                &&& nn.children@ == children_spliced(n.children@, pos as int, left_id, right_id)
                &&& nn.keys@.len() == n.keys@.len() + 1
                &&& nn.children@.len() == nn.keys@.len() + 1
                &&& strict_sorted(nn.keys@)
            },
            InternalInsertStatus::Split(psk, nl, nr) => {
                &&& n.keys@.len() == cap
                &&& ({
                    let tk = keys_spliced(n.keys@, pos as int, sk);
                    let tc = children_spliced(n.children@, pos as int, left_id, right_id);
                    let m = (cap + 1) as int / 2;
                    &&& psk == tk[m]
                    &&& nl.keys@ == tk.take(m)
                    &&& nl.children@ == tc.take(m + 1)
                    &&& nr.keys@ == tk.skip(m + 1)
                    &&& nr.children@ == tc.skip(m + 1)
                    &&& nl.keys@.len() == m
                    &&& nr.keys@.len() == cap - m
                    &&& nl.keys@.len() >= min_internal(cap as int)
                    &&& nr.keys@.len() >= min_internal(cap as int)
                    &&& nl.children@.len() == nl.keys@.len() + 1
                    &&& nr.children@.len() == nr.keys@.len() + 1
                    &&& strict_sorted(nl.keys@)
                    &&& strict_sorted(nr.keys@)
                    &&& (forall|i: int| 0 <= i < nl.keys@.len() ==> nl.keys@[i] < psk)
                    &&& (forall|i: int| 0 <= i < nr.keys@.len() ==> nr.keys@[i] > psk)
                })
            },
        },
{
    let cl = n.children.len();
    let tk = array_insert_at(&n.keys, pos, sk);
    let tc0 = array_set(&n.children, pos, left_id);
    let tc = array_insert_at(&tc0, pos + 1, right_id);
    let ghost p = pos as int;
    proof {
        assert(tk@ == keys_spliced(n.keys@, p, sk));
        assert(tc@ == children_spliced(n.children@, p, left_id, right_id));
        assert forall|i: int, j: int| 0 <= i < j < tk@.len() implies tk@[i] < tk@[j] by {
            assert(tk@[i] == if i < p {
                n.keys@[i]
            } else if i == p {
                sk
            } else {
                n.keys@[i - 1]
            });
            assert(tk@[j] == if j < p {
                n.keys@[j]
            } else if j == p {
                sk
            } else {
                n.keys@[j - 1]
            });
            if i < p && j == p && i < p - 1 {
                assert(n.keys@[i] < n.keys@[p - 1]);
            }
            if i == p && j > p && j - 1 > p {
                assert(n.keys@[p] <= n.keys@[j - 1]);
            }
        }
    }
    if tk.len() <= cap {
        let nn = InternalNode { keys: tk, children: tc };
        InternalInsertStatus::Inserted(nn)
    } else {
        let m = (cap + 1) / 2;
        let psk = tk[m];
        let nl = InternalNode { keys: array_take(&tk, m), children: array_take(&tc, m + 1) };
        let nr = InternalNode {
            keys: array_skip(&tk, m + 1),
            children: array_skip(&tc, m + 1),
        };
        proof {
            assert forall|i: int| 0 <= i < nl.keys@.len() implies nl.keys@[i] < psk by {
                assert(nl.keys@[i] == tk@[i]);
            }
            assert forall|i: int| 0 <= i < nr.keys@.len() implies nr.keys@[i] > psk by {
                assert(nr.keys@[i] == tk@[m + 1 + i]);
            }
        }
        InternalInsertStatus::Split(psk, nl, nr)
    }
}

/// Remove `keys[anchor]` together with `children[anchor + 1]`, reporting
/// whether the node is still at least half-full.
pub fn internal_delete_key_children(n: &InternalNode, anchor: usize, cap: usize) -> (r:
    InternalDeleteStatus)
    requires
        internal_sound(*n, cap as int),
        cap >= 2,
        anchor < n.keys@.len(),
    ensures
        ({
            let nn = match r {
                InternalDeleteStatus::Removed(nn) => nn,
                InternalDeleteStatus::NeedsRebalance(nn) => nn,
            };
            &&& nn.keys@ == n.keys@.take(anchor as int) + n.keys@.skip(anchor as int + 1)
            &&& nn.children@ == n.children@.take(anchor as int + 1) + n.children@.skip(
                anchor as int + 2,
            )
            &&& nn.keys@.len() == n.keys@.len() - 1
            &&& nn.children@.len() == nn.keys@.len() + 1
            &&& strict_sorted(nn.keys@)
            &&& (r is Removed <==> nn.keys@.len() >= min_internal(cap as int))
        }),
{
    let cl = n.children.len();
    let nk = array_skip(&n.keys, anchor + 1);
    let nk = array_concat(&array_take(&n.keys, anchor), &nk);
    let nc = array_skip(&n.children, anchor + 2);
    let nc = array_concat(&array_take(&n.children, anchor + 1), &nc);
    let nn = InternalNode { keys: nk, children: nc };
    proof {
        assert forall|i: int, j: int| 0 <= i < j < nn.keys@.len() implies nn.keys@[i]
            < nn.keys@[j] by {
            assert(nn.keys@[i] == if i < anchor { n.keys@[i] } else { n.keys@[i + 1] });
            assert(nn.keys@[j] == if j < anchor { n.keys@[j] } else { n.keys@[j + 1] });
        }
    }
    if nn.keys.len() >= min_internal_cap(cap) {
        InternalDeleteStatus::Removed(nn)
    } else {
        InternalDeleteStatus::NeedsRebalance(nn)
    }
}

/// Rotate the last key of the left sibling through the parent: the node
/// gains the old separator and the left sibling's last child; the left
/// sibling's last key becomes the new separator.
pub fn internal_take_from_left(left: &InternalNode, node: &InternalNode, sep: u64) -> (r: (
    u64,
    InternalNode,
    InternalNode,
))
    requires
        left.children@.len() == left.keys@.len() + 1,
        node.children@.len() == node.keys@.len() + 1,
        left.keys@.len() >= 2,
        strict_sorted(left.keys@),
        strict_sorted(node.keys@),
        forall|i: int| 0 <= i < left.keys@.len() ==> left.keys@[i] < sep,
        forall|i: int| 0 <= i < node.keys@.len() ==> node.keys@[i] > sep,
    ensures
        ({
            let (ns, nleft, nself) = r;
            &&& ns == left.keys@.last()
            &&& nleft.keys@ == left.keys@.drop_last()
            &&& nleft.children@ == left.children@.drop_last()
            &&& nself.keys@ == seq![sep] + node.keys@
            &&& nself.children@ == seq![left.children@.last()] + node.children@
            &&& nleft.keys@.len() == left.keys@.len() - 1
            &&& nself.keys@.len() == node.keys@.len() + 1
            &&& nleft.children@.len() == nleft.keys@.len() + 1
            &&& nself.children@.len() == nself.keys@.len() + 1
            &&& strict_sorted(nleft.keys@)
            &&& strict_sorted(nself.keys@)
            &&& (forall|i: int| 0 <= i < nleft.keys@.len() ==> nleft.keys@[i] < ns)
            &&& (forall|i: int| 0 <= i < nself.keys@.len() ==> nself.keys@[i] > ns)
            &&& ns < sep
        }),
{
    let lk = left.keys.len() - 1;
    let lc = left.children.len() - 1;
    let ns = left.keys[lk];
    let moved_child = left.children[lc];
    let nleft = InternalNode {
        keys: array_take(&left.keys, lk),
        children: array_take(&left.children, lc),
    };
    let nself = InternalNode {
        keys: array_insert_at(&node.keys, 0, sep),
        children: array_insert_at(&node.children, 0, moved_child),
    };
    proof {
        assert(nleft.keys@ =~= left.keys@.drop_last());
        assert(nleft.children@ =~= left.children@.drop_last());
        assert(nself.keys@ =~= seq![sep] + node.keys@);
        assert(nself.children@ =~= seq![left.children@.last()] + node.children@);
        assert forall|i: int| 0 <= i < nself.keys@.len() implies nself.keys@[i] > ns by {
            if i > 0 {
                assert(nself.keys@[i] == node.keys@[i - 1]);
            }
        }
    }
    (ns, nleft, nself)
}

/// Rotate the first key of the right sibling through the parent: the node
/// gains the old separator and the right sibling's first child; the right
/// sibling's first key becomes the new separator.
pub fn internal_take_from_right(node: &InternalNode, right: &InternalNode, sep: u64) -> (r: (
    u64,
    InternalNode,
    InternalNode,
))
    requires
        node.children@.len() == node.keys@.len() + 1,
        right.children@.len() == right.keys@.len() + 1,
        right.keys@.len() >= 2,
        strict_sorted(node.keys@),
        strict_sorted(right.keys@),
        forall|i: int| 0 <= i < node.keys@.len() ==> node.keys@[i] < sep,
        forall|i: int| 0 <= i < right.keys@.len() ==> right.keys@[i] > sep,
    ensures
        ({
            let (ns, nself, nright) = r;
            &&& ns == right.keys@[0]
            &&& nself.keys@ == node.keys@ + seq![sep]
            &&& nself.children@ == node.children@ + seq![right.children@[0]]
            &&& nright.keys@ == right.keys@.skip(1)
            &&& nright.children@ == right.children@.skip(1)
            &&& nself.keys@.len() == node.keys@.len() + 1
            &&& nright.keys@.len() == right.keys@.len() - 1
            &&& nself.children@.len() == nself.keys@.len() + 1
            &&& nright.children@.len() == nright.keys@.len() + 1
            &&& strict_sorted(nself.keys@)
            &&& strict_sorted(nright.keys@)
            &&& (forall|i: int| 0 <= i < nself.keys@.len() ==> nself.keys@[i] < ns)
            &&& (forall|i: int| 0 <= i < nright.keys@.len() ==> nright.keys@[i] > ns)
            &&& ns > sep
        }),
{
    let ns = right.keys[0];
    let moved_child = right.children[0];
    let mut sk = array_take(&node.keys, node.keys.len());
    let mut sc = array_take(&node.children, node.children.len());
    sk.push(sep);
    sc.push(moved_child);
    let nself = InternalNode { keys: sk, children: sc };
    let nright = InternalNode {
        keys: array_skip(&right.keys, 1),
        children: array_skip(&right.children, 1),
    };
    proof {
        assert(node.keys@.take(node.keys@.len() as int) =~= node.keys@);
        assert(node.children@.take(node.children@.len() as int) =~= node.children@);
        assert(nself.keys@ =~= node.keys@ + seq![sep]);
        assert(nself.children@ =~= node.children@ + seq![right.children@[0]]);
        assert forall|i: int| 0 <= i < nself.keys@.len() implies nself.keys@[i] < ns by {
            if i < node.keys@.len() {
                assert(nself.keys@[i] == node.keys@[i]);
            }
        }
        assert forall|i: int| 0 <= i < nright.keys@.len() implies nright.keys@[i] > ns by {
            assert(nright.keys@[i] == right.keys@[i + 1]);
        }
    }
    (ns, nself, nright)
}

/// Concatenate two adjacent internal nodes around their parent separator;
/// used for merges in both directions.
pub fn internal_merge(a: &InternalNode, b: &InternalNode, sep: u64) -> (m: InternalNode)
    requires
        a.children@.len() == a.keys@.len() + 1,
        b.children@.len() == b.keys@.len() + 1,
        strict_sorted(a.keys@),
        strict_sorted(b.keys@),
        forall|i: int| 0 <= i < a.keys@.len() ==> a.keys@[i] < sep,
        forall|i: int| 0 <= i < b.keys@.len() ==> b.keys@[i] > sep,
    ensures
        m.keys@ == a.keys@ + seq![sep] + b.keys@,
        m.children@ == a.children@ + b.children@,
        m.keys@.len() == a.keys@.len() + b.keys@.len() + 1,
        m.children@.len() == m.keys@.len() + 1,
        strict_sorted(m.keys@),
{
    let mut mk = array_take(&a.keys, a.keys.len());
    mk.push(sep);
    let mk = array_concat(&mk, &b.keys);
    let mc = array_concat(&a.children, &b.children);
    let m = InternalNode { keys: mk, children: mc };
    proof {
        assert(a.keys@.take(a.keys@.len() as int) =~= a.keys@);
        assert(m.keys@ =~= a.keys@ + seq![sep] + b.keys@);
        assert forall|i: int, j: int| 0 <= i < j < m.keys@.len() implies m.keys@[i] < m.keys@[j] by {
            let al = a.keys@.len();
            assert(m.keys@[i] == if i < al {
                a.keys@[i]
            } else if i == al {
                sep
            } else {
                b.keys@[i - al - 1]
            });
            assert(m.keys@[j] == if j < al {
                a.keys@[j]
            } else if j == al {
                sep
            } else {
                b.keys@[j - al - 1]
            });
        }
    }
    m
}

} // verus!
