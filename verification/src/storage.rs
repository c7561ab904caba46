//! Durable page images. The tree file is a dense sequence of pages of the
//! configured size: byte 0 of a page is the node tag (1 internal, 2 leaf),
//! followed by the length-prefixed key array and the length-prefixed
//! children-or-values array. Lengths and child ids are little-endian; keys
//! are big-endian so byte order matches key order. A reopened image is
//! walked and checked before it is trusted: a page whose shape breaks the
//! tree's invariants refuses to load.

use vstd::prelude::*;

use crate::codec::{decode_u16, decode_u32, decode_u64, decode_u64_be, get_u16_le, get_u32_le,
    get_u64_be, get_u64_le, put_u16_le, put_u32_le, put_u64_be, put_u64_le};
use crate::node::{node_views_eq, subtree_wf, InternalNode, LeafNode, Node};
use crate::BTreeStoreError;

verus! {

/// A node small enough for one page of size `ps`.
pub open spec fn node_fits(n: Node, ps: int) -> bool {
    match n {
        Node::Leaf(l) => {
            &&& l.values@.len() == l.keys@.len()
            &&& l.keys@.len() <= (ps - 5) / 16
        },
        Node::Internal(nn) => {
            &&& nn.children@.len() == nn.keys@.len() + 1
            &&& 1 <= nn.keys@.len() <= (ps - 9) / 12
        },
    }
}

/// Every page of the arena fits one page image of its configured size;
/// serialization can therefore never fail.
pub open spec fn pages_fit(s: crate::pages::PageStore) -> bool {
    forall|i: int|
        0 <= i < s.pages@.len() ==> node_fits(#[trigger] s.pages@[i], s.page_size as int)
}

/// The bytes at `off` are the page image of `n`: the tag, the length
/// prefixes, and each key, value and child id at its place.
pub open spec fn encodes_node(b: Seq<u8>, off: int, ps: int, n: Node) -> bool {
    &&& node_fits(n, ps)
    &&& 0 <= off
    &&& off + ps <= b.len()
    &&& match n {
        Node::Leaf(l) => {
            let k = l.keys@.len() as int;
            &&& b[off] == 2
            &&& decode_u16(b, off + 1) == k
            &&& decode_u16(b, off + 3 + 8 * k) == k
            &&& (forall|i: int| 0 <= i < k ==> decode_u64_be(b, off + 3 + 8 * i) == l.keys@[i])
            &&& (forall|i: int|
                0 <= i < k ==> decode_u64(b, off + 5 + 8 * k + 8 * i) == l.values@[i])
        },
        Node::Internal(nn) => {
            let k = nn.keys@.len() as int;
            &&& b[off] == 1
            &&& decode_u16(b, off + 1) == k
            &&& decode_u16(b, off + 3 + 8 * k) == k + 1
            &&& (forall|i: int| 0 <= i < k ==> decode_u64_be(b, off + 3 + 8 * i) == nn.keys@[i])
            &&& (forall|i: int|
                0 <= i < k + 1 ==> decode_u32(b, off + 5 + 8 * k + 4 * i) == nn.children@[i])
        },
    }
}

/// A page image carried unchanged to another place still encodes its node.
pub proof fn lemma_encodes_move(b1: Seq<u8>, off1: int, b2: Seq<u8>, off2: int, ps: int, n: Node)
    requires
        encodes_node(b1, off1, ps, n),
        0 <= off2,
        off2 + ps <= b2.len(),
        forall|t: int| off2 <= t < off2 + ps ==> #[trigger] b2[t] == b1[t - off2 + off1],
        ps >= 40,
    ensures
        encodes_node(b2, off2, ps, n),
{
    match n {
        Node::Leaf(l) => {
            let k = l.keys@.len() as int;
            assert(b2[off2] == b1[off1]);
            assert(decode_u16(b2, off2 + 1) == decode_u16(b1, off1 + 1));
            assert(decode_u16(b2, off2 + 3 + 8 * k) == decode_u16(b1, off1 + 3 + 8 * k));
            assert forall|i: int|
                0 <= i < k implies decode_u64_be(b2, off2 + 3 + 8 * i) == l.keys@[i] by {
                assert(decode_u64_be(b2, off2 + 3 + 8 * i) == decode_u64_be(b1, off1 + 3 + 8 * i));
            }
            assert forall|i: int|
                0 <= i < k implies decode_u64(b2, off2 + 5 + 8 * k + 8 * i) == l.values@[i] by {
                assert(decode_u64(b2, off2 + 5 + 8 * k + 8 * i) == decode_u64(
                    b1,
                    off1 + 5 + 8 * k + 8 * i,
                ));
            }
        },
        Node::Internal(nn) => {
            let k = nn.keys@.len() as int;
            assert(b2[off2] == b1[off1]);
            assert(decode_u16(b2, off2 + 1) == decode_u16(b1, off1 + 1));
            assert(decode_u16(b2, off2 + 3 + 8 * k) == decode_u16(b1, off1 + 3 + 8 * k));
            assert forall|i: int|
                0 <= i < k implies decode_u64_be(b2, off2 + 3 + 8 * i) == nn.keys@[i] by {
                assert(decode_u64_be(b2, off2 + 3 + 8 * i) == decode_u64_be(b1, off1 + 3 + 8 * i));
            }
            assert forall|i: int|
                0 <= i < k + 1 implies decode_u32(b2, off2 + 5 + 8 * k + 4 * i)
                == nn.children@[i] by {
                assert(decode_u32(b2, off2 + 5 + 8 * k + 4 * i) == decode_u32(
                    b1,
                    off1 + 5 + 8 * k + 4 * i,
                ));
            }
        },
    }
}

/// Write one node as a page image of exactly `ps` bytes; refused exactly
/// when the node does not fit such a page.
pub fn encode_node(n: &Node, ps: usize) -> (r: Result<Vec<u8>, BTreeStoreError>)
    requires
        40 <= ps <= 0xFFFF,
    ensures
        match r {
            Ok(img) => img@.len() == ps && encodes_node(img@, 0, ps as int, *n),
            Err(e) => e == BTreeStoreError::InvariantViolation && !node_fits(*n, ps as int),
        },
{
    let mut out: Vec<u8> = Vec::new();
    match n {
        Node::Leaf(l) => {
            if l.keys.len() != l.values.len() || l.keys.len() > (ps - 5) / 16 {
                return Err(BTreeStoreError::InvariantViolation);
            }
            let klen = l.keys.len();
            out.push(2u8);
            put_u16_le(&mut out, klen as u16);
            let mut i: usize = 0;
            while i < klen
                invariant
                    i <= klen,
                    klen == l.keys@.len(),
                    klen <= (ps - 5) / 16,
                    40 <= ps <= 0xFFFF,
                    out@.len() == 3 + 8 * i,
                    out@[0] == 2,
                    decode_u16(out@, 1) == klen,
                    forall|j: int| 0 <= j < i ==> decode_u64_be(out@, 3 + 8 * j) == l.keys@[j],
                decreases klen - i,
            {
                put_u64_be(&mut out, l.keys[i]);
                i = i + 1;
            }
            put_u16_le(&mut out, klen as u16);
            let mut i: usize = 0;
            while i < klen
                invariant
                    i <= klen,
                    klen == l.keys@.len(),
                    klen == l.values@.len(),
                    klen <= (ps - 5) / 16,
                    40 <= ps <= 0xFFFF,
                    out@.len() == 5 + 8 * klen + 8 * i,
                    out@[0] == 2,
                    decode_u16(out@, 1) == klen,
                    decode_u16(out@, 3 + 8 * klen) == klen,
                    forall|j: int| 0 <= j < klen ==> decode_u64_be(out@, 3 + 8 * j) == l.keys@[j],
                    forall|j: int|
                        0 <= j < i ==> decode_u64(out@, 5 + 8 * klen + 8 * j) == l.values@[j],
                decreases klen - i,
            {
                put_u64_le(&mut out, l.values[i]);
                i = i + 1;
            }
        },
        Node::Internal(nn) => {
            if nn.children.len() == 0 || nn.children.len() - 1 != nn.keys.len() || nn.keys.len()
                == 0 || nn.keys.len() > (ps - 9) / 12 {
                return Err(BTreeStoreError::InvariantViolation);
            }
            let klen = nn.keys.len();
            out.push(1u8);
            put_u16_le(&mut out, klen as u16);
            let mut i: usize = 0;
            while i < klen
                invariant
                    i <= klen,
                    klen == nn.keys@.len(),
                    klen <= (ps - 9) / 12,
                    40 <= ps <= 0xFFFF,
                    out@.len() == 3 + 8 * i,
                    out@[0] == 1,
                    decode_u16(out@, 1) == klen,
                    forall|j: int| 0 <= j < i ==> decode_u64_be(out@, 3 + 8 * j) == nn.keys@[j],
                decreases klen - i,
            {
                put_u64_be(&mut out, nn.keys[i]);
                i = i + 1;
            }
            put_u16_le(&mut out, (klen + 1) as u16);
            let mut i: usize = 0;
            while i < klen + 1
                invariant
                    i <= klen + 1,
                    klen == nn.keys@.len(),
                    klen + 1 == nn.children@.len(),
                    klen <= (ps - 9) / 12,
                    40 <= ps <= 0xFFFF,
                    out@.len() == 5 + 8 * klen + 4 * i,
                    out@[0] == 1,
                    decode_u16(out@, 1) == klen,
                    decode_u16(out@, 3 + 8 * klen) == klen + 1,
                    forall|j: int| 0 <= j < klen ==> decode_u64_be(out@, 3 + 8 * j) == nn.keys@[j],
                    forall|j: int|
                        0 <= j < i ==> decode_u32(out@, 5 + 8 * klen + 4 * j) == nn.children@[j],
                decreases klen + 1 - i,
            {
                put_u32_le(&mut out, nn.children[i]);
                i = i + 1;
            }
        },
    }
    let ghost done = out@;
    while out.len() < ps
        invariant
            out@.len() <= ps,
            done.len() <= out@.len(),
            forall|j: int| 0 <= j < done.len() ==> out@[j] == done[j],
        decreases ps - out@.len(),
    {
        out.push(0u8);
    }
    proof {
        match n {
            Node::Leaf(l) => {
                let k = l.keys@.len() as int;
                assert(decode_u16(out@, 1) == decode_u16(done, 1));
                assert(decode_u16(out@, 3 + 8 * k) == decode_u16(done, 3 + 8 * k));
                assert forall|i: int|
                    0 <= i < k implies decode_u64_be(out@, 3 + 8 * i) == l.keys@[i] by {
                    assert(decode_u64_be(out@, 3 + 8 * i) == decode_u64_be(done, 3 + 8 * i));
                }
                assert forall|i: int|
                    0 <= i < k implies decode_u64(out@, 5 + 8 * k + 8 * i) == l.values@[i] by {
                    assert(decode_u64(out@, 5 + 8 * k + 8 * i) == decode_u64(
                        done,
                        5 + 8 * k + 8 * i,
                    ));
                }
            },
            Node::Internal(nn) => {
                let k = nn.keys@.len() as int;
                assert(decode_u16(out@, 1) == decode_u16(done, 1));
                assert(decode_u16(out@, 3 + 8 * k) == decode_u16(done, 3 + 8 * k));
                assert forall|i: int|
                    0 <= i < k implies decode_u64_be(out@, 3 + 8 * i) == nn.keys@[i] by {
                    assert(decode_u64_be(out@, 3 + 8 * i) == decode_u64_be(done, 3 + 8 * i));
                }
                assert forall|i: int|
                    0 <= i < k + 1 implies decode_u32(out@, 5 + 8 * k + 4 * i)
                    == nn.children@[i] by {
                    assert(decode_u32(out@, 5 + 8 * k + 4 * i) == decode_u32(
                        done,
                        5 + 8 * k + 4 * i,
                    ));
                }
            },
        }
    }
    Ok(out)
}

/// Read one node back from the page image at `off`. An image that encodes
/// a node is accepted and gives that node back, field for field.
pub fn decode_node(b: &Vec<u8>, off: usize, ps: usize) -> (r: Result<Node, BTreeStoreError>)
    requires
        40 <= ps <= 0xFFFF,
        off + ps <= b@.len(),
    ensures
        match r {
            Ok(n) => node_fits(n, ps as int),
            Err(e) => e == BTreeStoreError::CorruptedPage,
        },
        forall|n: Node|
            #[trigger] encodes_node(b@, off as int, ps as int, n) ==> r is Ok && node_views_eq(
                r->Ok_0,
                n,
            ),
{
    let n0 = b.len();
    let tag = b[off];
    if tag == 2 {
        let klen = get_u16_le(b, off + 1) as usize;
        if klen > (ps - 5) / 16 {
            return Err(BTreeStoreError::CorruptedPage);
        }
        let mut keys: Vec<u64> = Vec::new();
        let mut i: usize = 0;
        while i < klen
            invariant
                i <= klen,
                keys@.len() == i,
                klen <= (ps - 5) / 16,
                klen == decode_u16(b@, off as int + 1),
                40 <= ps <= 0xFFFF,
                off + ps <= b@.len(),
                b@.len() <= usize::MAX,
                forall|j: int| 0 <= j < i ==> keys@[j] == decode_u64_be(b@, off + 3 + 8 * j),
            decreases klen - i,
        {
            keys.push(get_u64_be(b, off + 3 + 8 * i));
            i = i + 1;
        }
        let vlen = get_u16_le(b, off + 3 + 8 * klen) as usize;
        if vlen != klen {
            return Err(BTreeStoreError::CorruptedPage);
        }
        let mut values: Vec<u64> = Vec::new();
        let mut i: usize = 0;
        while i < vlen
            invariant
                i <= vlen,
                values@.len() == i,
                vlen <= (ps - 5) / 16,
                klen == vlen,
                40 <= ps <= 0xFFFF,
                off + ps <= b@.len(),
                b@.len() <= usize::MAX,
                forall|j: int|
                    0 <= j < i ==> values@[j] == decode_u64(b@, off + 5 + 8 * klen + 8 * j),
            decreases vlen - i,
        {
            values.push(get_u64_le(b, off + 5 + 8 * klen + 8 * i));
            i = i + 1;
        }
        let out = Node::Leaf(LeafNode { keys, values });
        proof {
            assert forall|n: Node|
                encodes_node(b@, off as int, ps as int, n) implies node_views_eq(out, n) by {
                match n {
                    Node::Leaf(l) => {
                        assert(l.keys@.len() == klen);
                        assert(out->Leaf_0.keys@ =~= l.keys@);
                        assert(out->Leaf_0.values@ =~= l.values@);
                    },
                    Node::Internal(_) => {
                        assert(b@[off as int] == 1);
                    },
                }
            }
        }
        Ok(out)
    } else if tag == 1 {
        let klen = get_u16_le(b, off + 1) as usize;
        if klen > (ps - 9) / 12 || klen == 0 {
            return Err(BTreeStoreError::CorruptedPage);
        }
        let mut keys: Vec<u64> = Vec::new();
        let mut i: usize = 0;
        while i < klen
            invariant
                i <= klen,
                keys@.len() == i,
                klen <= (ps - 9) / 12,
                40 <= ps <= 0xFFFF,
                off + ps <= b@.len(),
                b@.len() <= usize::MAX,
                forall|j: int| 0 <= j < i ==> keys@[j] == decode_u64_be(b@, off + 3 + 8 * j),
            decreases klen - i,
        {
            keys.push(get_u64_be(b, off + 3 + 8 * i));
            i = i + 1;
        }
        let clen = get_u16_le(b, off + 3 + 8 * klen) as usize;
        if clen != klen + 1 {
            return Err(BTreeStoreError::CorruptedPage);
        }
        let mut children: Vec<u32> = Vec::new();
        let mut i: usize = 0;
        while i < clen
            invariant
                i <= clen,
                children@.len() == i,
                clen <= (ps - 9) / 12 + 1,
                klen <= (ps - 9) / 12,
                40 <= ps <= 0xFFFF,
                off + ps <= b@.len(),
                b@.len() <= usize::MAX,
                forall|j: int|
                    0 <= j < i ==> children@[j] == decode_u32(b@, off + 5 + 8 * klen + 4 * j),
            decreases clen - i,
        {
            children.push(get_u32_le(b, off + 5 + 8 * klen + 4 * i));
            i = i + 1;
        }
        proof {
            assert(children@.len() == keys@.len() + 1);
        }
        let out = Node::Internal(InternalNode { keys, children });
        proof {
            assert forall|n: Node|
                encodes_node(b@, off as int, ps as int, n) implies node_views_eq(out, n) by {
                match n {
                    Node::Internal(nn) => {
                        assert(nn.keys@.len() == klen);
                        assert(out->Internal_0.keys@ =~= nn.keys@);
                        assert(out->Internal_0.children@ =~= nn.children@);
                    },
                    Node::Leaf(_) => {
                        assert(b@[off as int] == 2);
                    },
                }
            }
        }
        Ok(out)
    } else {
        Err(BTreeStoreError::CorruptedPage)
    }
}

/// Walk the subtree at `id` and confirm every invariant the tree relies
/// on: tags match heights, keys are sorted and confined to their interval,
/// occupancy minima hold off the root. A positive answer is a proof.
pub fn check_subtree(
    pages: &Vec<Node>,
    cl: usize,
    ci: usize,
    id: u32,
    h: u32,
    lo: u128,
    hi: u128,
    is_root: bool,
) -> (b: bool)
    requires
        cl >= 2,
        ci >= 2,
    ensures
        b ==> subtree_wf(pages@, cl as int, ci as int, id, h as nat, lo as int, hi as int, is_root),
        subtree_wf(pages@, cl as int, ci as int, id, h as nat, lo as int, hi as int, is_root)
            ==> b,
    decreases h,
{
    if id == 0 || (id as usize) >= pages.len() {
        return false;
    }
    match &pages[id as usize] {
        Node::Leaf(l) => {
            if h != 0 {
                return false;
            }
            if l.values.len() != l.keys.len() {
                return false;
            }
            if l.keys.len() > cl {
                return false;
            }
            if !is_root && l.keys.len() < cl / 2 + cl % 2 {
                return false;
            }
            let mut i: usize = 0;
            while i < l.keys.len()
                invariant
                    i <= l.keys@.len(),
                    subtree_wf(
                        pages@, cl as int, ci as int, id, h as nat, lo as int, hi as int, is_root,
                    ) ==> crate::node::strict_sorted(l.keys@) && crate::node::keys_in_range(
                        l.keys@,
                        lo as int,
                        hi as int,
                    ),
                    forall|a: int, b2: int| 0 <= a < b2 < i ==> l.keys@[a] < l.keys@[b2],
                    forall|a: int|
                        0 <= a < i ==> lo <= (#[trigger] l.keys@[a]) as u128 && ((
                        l.keys@[a] as u128) < hi),
                decreases l.keys@.len() - i,
            {
                let k = l.keys[i];
                if (k as u128) < lo || (k as u128) >= hi {
                    return false;
                }
                if i > 0 {
                    if l.keys[i - 1] >= k {
                        return false;
                    }
                    proof {
                        assert forall|a: int, b2: int|
                            0 <= a < b2 < i + 1 implies l.keys@[a] < l.keys@[b2] by {
                            if b2 == i && a < i - 1 {
                                assert(l.keys@[a] < l.keys@[i - 1]);
                            }
                        }
                    }
                }
                i = i + 1;
            }
            true
        },
        Node::Internal(n) => {
            if h == 0 {
                return false;
            }
            if n.children.len() == 0 || n.children.len() - 1 != n.keys.len() {
                return false;
            }
            if n.keys.len() > ci || n.keys.len() == 0 {
                return false;
            }
            if !is_root && n.keys.len() < ci / 2 {
                return false;
            }
            let mut i: usize = 0;
            while i < n.keys.len()
                invariant
                    i <= n.keys@.len(),
                    subtree_wf(
                        pages@, cl as int, ci as int, id, h as nat, lo as int, hi as int, is_root,
                    ) ==> crate::node::strict_sorted(n.keys@) && crate::node::keys_in_range(
                        n.keys@,
                        lo as int,
                        hi as int,
                    ),
                    forall|a: int, b2: int| 0 <= a < b2 < i ==> n.keys@[a] < n.keys@[b2],
                    forall|a: int|
                        0 <= a < i ==> lo <= (#[trigger] n.keys@[a]) as u128 && ((
                        n.keys@[a] as u128) < hi),
                decreases n.keys@.len() - i,
            {
                let k = n.keys[i];
                if (k as u128) < lo || (k as u128) >= hi {
                    return false;
                }
                if i > 0 {
                    if n.keys[i - 1] >= k {
                        return false;
                    }
                    proof {
                        assert forall|a: int, b2: int|
                            0 <= a < b2 < i + 1 implies n.keys@[a] < n.keys@[b2] by {
                            if b2 == i && a < i - 1 {
                                assert(n.keys@[a] < n.keys@[i - 1]);
                            }
                        }
                    }
                }
                i = i + 1;
            }
            let mut i: usize = 0;
            while i < n.children.len()
                invariant
                    i <= n.children@.len(),
                    n.children@.len() == n.keys@.len() + 1,
                    1 <= n.keys@.len() <= ci,
                    cl >= 2,
                    ci >= 2,
                    h >= 1,
                    pages@[id as int] == Node::Internal(*n),
                    forall|a: int, b2: int|
                        0 <= a < b2 < n.keys@.len() ==> n.keys@[a] < n.keys@[b2],
                    forall|a: int|
                        0 <= a < n.keys@.len() ==> lo <= (#[trigger] n.keys@[a]) as u128 && ((
                        n.keys@[a] as u128) < hi),
                    forall|a: int|
                        0 <= a < i ==> subtree_wf(
                            pages@,
                            cl as int,
                            ci as int,
                            #[trigger] n.children@[a],
                            (h - 1) as nat,
                            crate::node::child_lo(n.keys@, lo as int, a),
                            crate::node::child_hi(n.keys@, hi as int, a),
                            false,
                        ),
                decreases n.children@.len() - i,
            {
                let clo: u128 = if i == 0 {
                    lo
                } else {
                    n.keys[i - 1] as u128
                };
                let chi: u128 = if i == n.keys.len() {
                    hi
                } else {
                    n.keys[i] as u128
                };
                if !check_subtree(pages, cl, ci, n.children[i], h - 1, clo, chi, false) {
                    proof {
                        if subtree_wf(
                            pages@, cl as int, ci as int, id, h as nat, lo as int, hi as int,
                            is_root,
                        ) {
                            assert(subtree_wf(
                                pages@,
                                cl as int,
                                ci as int,
                                n.children@[i as int],
                                (h - 1) as nat,
                                crate::node::child_lo(n.keys@, lo as int, i as int),
                                crate::node::child_hi(n.keys@, hi as int, i as int),
                                false,
                            ));
                            assert(clo as int == crate::node::child_lo(n.keys@, lo as int, i as int));
                            assert(chi as int == crate::node::child_hi(n.keys@, hi as int, i as int));
                        }
                    }
                    return false;
                }
                i = i + 1;
            }
            true
        },
    }
}

/// The height of the tree under `root`: the length of its leftmost path.
/// A cycle or a dangling id is reported as corruption; on a well-formed
/// tree whose height fits the arena, the walk returns exactly that height.
pub fn measure_height(
    pages: &Vec<Node>,
    root: u32,
    Ghost(cl): Ghost<int>,
    Ghost(ci): Ghost<int>,
) -> (r: Result<u32, BTreeStoreError>)
    ensures
        r is Err ==> r->Err_0 == BTreeStoreError::CorruptedPage,
        forall|h0: nat, lo: int, hi: int, rt: bool|
            (#[trigger] subtree_wf(pages@, cl, ci, root, h0, lo, hi, rt) && h0 < pages@.len()
                && h0 <= u32::MAX) ==> r == Ok::<u32, BTreeStoreError>(h0 as u32),
{
    let mut cur = root;
    let mut h: u32 = 0;
    let mut fuel = pages.len();
    loop
        invariant_except_break
            fuel <= pages@.len(),
            fuel as int + h as int >= pages@.len() as int,
            forall|h0: nat, lo: int, hi: int, rt: bool|
                (#[trigger] subtree_wf(pages@, cl, ci, root, h0, lo, hi, rt) && h0 < pages@.len()
                    && h0 <= u32::MAX) ==> h as nat <= h0 && (exists|
                    hr: nat,
                    lo2: int,
                    hi2: int,
                    rt2: bool,
                |
                    hr + h as nat == h0 && #[trigger] subtree_wf(
                        pages@,
                        cl,
                        ci,
                        cur,
                        hr,
                        lo2,
                        hi2,
                        rt2,
                    )),
        ensures
            true,
        decreases fuel,
    {
        if fuel == 0 {
            return Err(BTreeStoreError::CorruptedPage);
        }
        fuel = fuel - 1;
        if (cur as usize) >= pages.len() {
            return Err(BTreeStoreError::CorruptedPage);
        }
        match &pages[cur as usize] {
            Node::Leaf(_) => {
                proof {
                    assert forall|h0: nat, lo: int, hi: int, rt: bool|
                        (subtree_wf(pages@, cl, ci, root, h0, lo, hi, rt) && h0 < pages@.len()
                            && h0 <= u32::MAX) implies Ok::<u32, BTreeStoreError>(h) == Ok::<
                        u32,
                        BTreeStoreError,
                    >(h0 as u32) by {
                        let (hr, lo2, hi2, rt2) = choose|hr: nat, lo2: int, hi2: int, rt2: bool|
                            hr + h as nat == h0 && #[trigger] subtree_wf(
                                pages@,
                                cl,
                                ci,
                                cur,
                                hr,
                                lo2,
                                hi2,
                                rt2,
                            );
                        assert(hr == 0);
                    }
                }
                return Ok(h);
            },
            Node::Internal(n) => {
                if n.children.len() == 0 || h == u32::MAX {
                    proof {
                        assert forall|h0: nat, lo: int, hi: int, rt: bool|
                            !(subtree_wf(pages@, cl, ci, root, h0, lo, hi, rt) && h0
                                < pages@.len() && h0 <= u32::MAX) by {
                            if subtree_wf(pages@, cl, ci, root, h0, lo, hi, rt) && h0
                                < pages@.len() && h0 <= u32::MAX {
                                let (hr, lo2, hi2, rt2) = choose|
                                    hr: nat,
                                    lo2: int,
                                    hi2: int,
                                    rt2: bool,
                                |
                                    hr + h as nat == h0 && #[trigger] subtree_wf(
                                        pages@,
                                        cl,
                                        ci,
                                        cur,
                                        hr,
                                        lo2,
                                        hi2,
                                        rt2,
                                    );
                                assert(hr >= 1);
                                assert(h as nat <= h0 && h0 <= u32::MAX);
                                assert(h < u32::MAX);
                            }
                        }
                    }
                    return Err(BTreeStoreError::CorruptedPage);
                }
                let nxt = n.children[0];
                proof {
                    assert forall|h0: nat, lo: int, hi: int, rt: bool|
                        (subtree_wf(pages@, cl, ci, root, h0, lo, hi, rt) && h0 < pages@.len()
                            && h0 <= u32::MAX) implies (h + 1) as nat <= h0 && (exists|
                        hr: nat,
                        lo2: int,
                        hi2: int,
                        rt2: bool,
                    |
                        hr + (h + 1) as nat == h0 && #[trigger] subtree_wf(
                            pages@,
                            cl,
                            ci,
                            nxt,
                            hr,
                            lo2,
                            hi2,
                            rt2,
                        )) by {
                        let (hr, lo2, hi2, rt2) = choose|hr: nat, lo2: int, hi2: int, rt2: bool|
                            hr + h as nat == h0 && #[trigger] subtree_wf(
                                pages@,
                                cl,
                                ci,
                                cur,
                                hr,
                                lo2,
                                hi2,
                                rt2,
                            );
                        assert(hr >= 1);
                        assert(subtree_wf(
                            pages@,
                            cl,
                            ci,
                            n.children@[0],
                            (hr - 1) as nat,
                            crate::node::child_lo(n.keys@, lo2, 0),
                            crate::node::child_hi(n.keys@, hi2, 0),
                            false,
                        ));
                    }
                }
                cur = nxt;
                h = h + 1;
            },
        }
    }
}

/// Serialize every page of the arena into one dense image; each page of
/// the image encodes its node.
pub fn serialize_pages(pages: &Vec<Node>, ps: usize) -> (r: Result<Vec<u8>, BTreeStoreError>)
    requires
        40 <= ps <= 0xFFFF,
    ensures
        match r {
            Ok(img) => {
                &&& img@.len() == ps * pages@.len()
                &&& forall|i: int|
                    0 <= i < pages@.len() ==> encodes_node(
                        img@,
                        (ps as int) * i,
                        ps as int,
                        #[trigger] pages@[i],
                    )
            },
            Err(e) => e == BTreeStoreError::InvariantViolation && exists|i: int|
                0 <= i < pages@.len() && !node_fits(#[trigger] pages@[i], ps as int),
        },
{
    let mut out: Vec<u8> = Vec::new();
    let mut i: usize = 0;
    while i < pages.len()
        invariant
            i <= pages@.len(),
            40 <= ps <= 0xFFFF,
            out@.len() == ps * i,
            forall|j: int|
                0 <= j < i ==> encodes_node(out@, (ps as int) * j, ps as int, #[trigger] pages@[j]),
        decreases pages@.len() - i,
    {
        let img = match encode_node(&pages[i], ps) {
            Ok(img) => img,
            Err(e) => {
                proof {
                    assert(!node_fits(pages@[i as int], ps as int));
                }
                return Err(e);
            },
        };
        let ghost out0 = out@;
        let mut j: usize = 0;
        while j < img.len()
            invariant
                j <= img@.len(),
                img@.len() == ps,
                out@.len() == out0.len() + j,
                forall|t: int| 0 <= t < out0.len() ==> out@[t] == out0[t],
                forall|t: int| 0 <= t < j ==> out@[out0.len() + t] == img@[t],
            decreases img@.len() - j,
        {
            out.push(img[j]);
            j = j + 1;
        }
        proof {
            assert(ps * i + ps == ps * (i + 1)) by (nonlinear_arith);
            lemma_encodes_move(img@, 0, out@, out0.len() as int, ps as int, pages@[i as int]);
            assert forall|j2: int|
                0 <= j2 < i + 1 implies encodes_node(
                out@,
                (ps as int) * j2,
                ps as int,
                #[trigger] pages@[j2],
            ) by {
                if j2 < i {
                    assert((ps as int) * j2 + ps <= (ps as int) * i) by (nonlinear_arith)
                        requires
                            0 <= j2 < i as int,
                            ps >= 40,
                    ;
                    lemma_encodes_move(
                        out0,
                        (ps as int) * j2,
                        out@,
                        (ps as int) * j2,
                        ps as int,
                        pages@[j2],
                    );
                }
            }
        }
        i = i + 1;
    }
    Ok(out)
}

/// Parse a dense page image back into an arena. An image whose every page
/// encodes a node is accepted and gives those nodes back, field for field.
pub fn parse_pages(b: &Vec<u8>, ps: usize) -> (r: Result<Vec<Node>, BTreeStoreError>)
    requires
        40 <= ps <= 0xFFFF,
    ensures
        r is Err ==> r->Err_0 == BTreeStoreError::CorruptedPage,
        r is Ok ==> forall|i: int|
            0 <= i < r->Ok_0@.len() ==> node_fits(#[trigger] r->Ok_0@[i], ps as int),
        forall|ns: Seq<Node>|
            (b@.len() == #[trigger] ((ps as int) * ns.len()) && (forall|i: int|
                0 <= i < ns.len() ==> encodes_node(b@, (ps as int) * i, ps as int, #[trigger] ns[i])))
                ==> r is Ok && r->Ok_0@.len() == ns.len() && (forall|i: int|
                0 <= i < ns.len() ==> node_views_eq(#[trigger] r->Ok_0@[i], ns[i])),
{
    let n = b.len();
    if n % ps != 0 {
        proof {
            assert forall|ns: Seq<Node>|
                !(b@.len() == #[trigger] ((ps as int) * ns.len()) && (forall|i: int|
                    0 <= i < ns.len() ==> encodes_node(
                        b@,
                        (ps as int) * i,
                        ps as int,
                        #[trigger] ns[i],
                    ))) by {
                assert(((ps as int) * ns.len()) % (ps as int) == 0) by (nonlinear_arith)
                    requires
                        ps >= 40,
                ;
            }
        }
        return Err(BTreeStoreError::CorruptedPage);
    }
    let count = n / ps;
    let mut pages: Vec<Node> = Vec::new();
    let mut i: usize = 0;
    while i < count
        invariant
            i <= count,
            pages@.len() == i,
            forall|t: int| 0 <= t < i ==> node_fits(#[trigger] pages@[t], ps as int),
            count as int == b@.len() as int / ps as int,
            b@.len() as int % ps as int == 0,
            b@.len() <= usize::MAX,
            40 <= ps <= 0xFFFF,
            forall|ns: Seq<Node>|
                (b@.len() == #[trigger] ((ps as int) * ns.len()) && (forall|t: int|
                    0 <= t < ns.len() ==> encodes_node(
                        b@,
                        (ps as int) * t,
                        ps as int,
                        #[trigger] ns[t],
                    ))) ==> (forall|t: int| 0 <= t < i ==> node_views_eq(#[trigger] pages@[t], ns[t])),
        decreases count - i,
    {
        proof {
            assert(ps * i + ps <= b@.len()) by (nonlinear_arith)
                requires
                    i < count,
                    count as int == b@.len() as int / ps as int,
                    b@.len() as int % ps as int == 0,
                    ps >= 40,
            ;
        }
        let offx = ps * i;
        proof {
            assert(offx as int == (ps as int) * (i as int));
        }
        let node = match decode_node(b, offx, ps) {
            Ok(node) => node,
            Err(e) => {
                proof {
                    assert forall|ns: Seq<Node>|
                        !(b@.len() == #[trigger] ((ps as int) * ns.len()) && (forall|t: int|
                            0 <= t < ns.len() ==> encodes_node(
                                b@,
                                (ps as int) * t,
                                ps as int,
                                #[trigger] ns[t],
                            ))) by {
                        if b@.len() == (ps as int) * ns.len() && (forall|t: int|
                            0 <= t < ns.len() ==> encodes_node(
                                b@,
                                (ps as int) * t,
                                ps as int,
                                #[trigger] ns[t],
                            )) {
                            assert((i as int) < ns.len()) by (nonlinear_arith)
                                requires
                                    i < count,
                                    count as int == b@.len() as int / ps as int,
                                    b@.len() as int % ps as int == 0,
                                    b@.len() == (ps as int) * ns.len(),
                                    ps >= 40,
                            ;
                            assert(encodes_node(b@, (ps as int) * (i as int), ps as int, ns[i as int]));
                            assert(false);
                        }
                    }
                }
                return Err(e);
            },
        };
        let ghost node_g = node;
        pages.push(node);
        proof {
            assert forall|ns: Seq<Node>|
                (b@.len() == #[trigger] ((ps as int) * ns.len()) && (forall|t: int|
                    0 <= t < ns.len() ==> encodes_node(
                        b@,
                        (ps as int) * t,
                        ps as int,
                        #[trigger] ns[t],
                    ))) implies (forall|t: int|
                0 <= t < i + 1 ==> node_views_eq(#[trigger] pages@[t], ns[t])) by {
                assert((i as int) < ns.len()) by (nonlinear_arith)
                    requires
                        i < count,
                        count as int == b@.len() as int / ps as int,
                        b@.len() as int % ps as int == 0,
                        b@.len() == (ps as int) * ns.len(),
                        ps >= 40,
                ;
                assert(encodes_node(b@, (ps as int) * (i as int), ps as int, ns[i as int]));
                assert(node_views_eq(node_g, ns[i as int]));
                assert(pages@[i as int] == node_g);
            }
        }
        i = i + 1;
    }
    proof {
        assert forall|ns: Seq<Node>|
            (b@.len() == #[trigger] ((ps as int) * ns.len()) && (forall|t: int|
                0 <= t < ns.len() ==> encodes_node(
                    b@,
                    (ps as int) * t,
                    ps as int,
                    #[trigger] ns[t],
                ))) implies pages@.len() == ns.len() by {
            assert((count as int) == ns.len()) by (nonlinear_arith)
                requires
                    count as int == b@.len() as int / ps as int,
                    b@.len() == (ps as int) * ns.len(),
                    ps >= 40,
            ;
        }
    }
    Ok(pages)
}

} // verus!
