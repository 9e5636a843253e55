use vstd::prelude::*;
use crate::sha::{NodeId, InfoHash, ShaHash, hash_eq};
use crate::trans::SequentialIds;

verus! {

// ---------------------------------------------------------------------------
// XOR distance and its order.

/// XOR distance between two ids.
pub type Distance = ShaHash;

/// Byte-wise XOR of two byte strings of the same length.
pub open spec fn xor_seq(a: Seq<u8>, b: Seq<u8>) -> Seq<u8> {
    Seq::new(a.len(), |i: int| a[i] ^ b[i])
}

/// `a` comes strictly before `b` in lexicographic (big-endian) order.
pub open spec fn lex_lt(a: Seq<u8>, b: Seq<u8>) -> bool {
    exists|k: int| #![trigger a[k], b[k]]
        0 <= k < a.len() && k < b.len() && a[k] < b[k]
            && (forall|j: int| 0 <= j < k ==> a[j] == b[j])
}

/// Lexicographic order is asymmetric.
pub proof fn lemma_lex_asym(a: Seq<u8>, b: Seq<u8>)
    requires
        lex_lt(a, b),
    ensures
        !lex_lt(b, a),
{
    let k = choose|k: int| #![trigger a[k], b[k]]
        0 <= k < a.len() && k < b.len() && a[k] < b[k] && (forall|j: int| 0 <= j < k ==> a[j] == b[j]);
    if lex_lt(b, a) {
        let m = choose|m: int| #![trigger b[m], a[m]]
            0 <= m < b.len() && m < a.len() && b[m] < a[m] && (forall|j: int| 0 <= j < m ==> b[j] == a[j]);
        if m < k {
            assert(a[m] == b[m]);
        } else if m > k {
            assert(b[k] == a[k]);
        }
    }
}

/// Lexicographic order is transitive.
pub proof fn lemma_lex_trans(a: Seq<u8>, b: Seq<u8>, c: Seq<u8>)
    requires
        lex_lt(a, b),
        lex_lt(b, c),
    ensures
        lex_lt(a, c),
{
    let k = choose|k: int| #![trigger a[k], b[k]]
        0 <= k < a.len() && k < b.len() && a[k] < b[k] && (forall|j: int| 0 <= j < k ==> a[j] == b[j]);
    let m = choose|m: int| #![trigger b[m], c[m]]
        0 <= m < b.len() && m < c.len() && b[m] < c[m] && (forall|j: int| 0 <= j < m ==> b[j] == c[j]);
    let w = if k < m { k } else { m };
    assert(0 <= w < a.len() && w < c.len() && a[w] < c[w]);
    assert(forall|j: int| 0 <= j < w ==> a[j] == b[j] && b[j] == c[j]);
}

/// Two byte strings of the same length are ordered one way or the other,
/// or are equal.
pub proof fn lemma_lex_total(a: Seq<u8>, b: Seq<u8>)
    requires
        a.len() == b.len(),
    ensures
        lex_lt(a, b) || lex_lt(b, a) || a == b,
{
    lemma_prefix_total(a, b, a.len() as int);
    if a.take(a.len() as int) == b.take(b.len() as int) {
        assert(a =~= a.take(a.len() as int));
        assert(b =~= b.take(b.len() as int));
    }
}

proof fn lemma_prefix_total(a: Seq<u8>, b: Seq<u8>, n: int)
    requires
        a.len() == b.len(),
        0 <= n <= a.len(),
    ensures
        lex_lt(a, b) || lex_lt(b, a) || a.take(n) == b.take(n),
    decreases n,
{
    if n > 0 {
        lemma_prefix_total(a, b, n - 1);
        if a.take(n - 1) == b.take(n - 1) {
            assert forall|j: int| 0 <= j < n - 1 implies a[j] == b[j] by {
                assert(a.take(n - 1)[j] == b.take(n - 1)[j]);
            }
            let k = n - 1;
            if a[k] < b[k] {
                assert(lex_lt(a, b));
            } else if b[k] < a[k] {
                assert(lex_lt(b, a));
            } else {
                assert(a.take(n) =~= b.take(n));
            }
        }
    } else {
        assert(a.take(0) =~= b.take(0));
    }
}

/// XOR distance between two ids.
pub fn distance(a: &ShaHash, b: &ShaHash) -> (r: Distance)
    ensures
        r@ == xor_seq(a@, b@),
{
    let mut r: Distance = [0u8; 20];
    let mut i: usize = 0;
    while i < 20
        invariant
            i <= 20,
            forall|j: int| 0 <= j < i ==> r@[j] == a@[j] ^ b@[j],
        decreases 20 - i,
    {
        r.set(i, a[i] ^ b[i]);
        i = i + 1;
    }
    assert(r@ =~= xor_seq(a@, b@));
    r
}

/// `a` is strictly closer than `b`: compares two distances byte by byte.
pub fn distance_lt(a: &Distance, b: &Distance) -> (r: bool)
    ensures
        r == lex_lt(a@, b@),
{
    let mut i: usize = 0;
    while i < 20
        invariant
            i <= 20,
            forall|j: int| 0 <= j < i ==> a@[j] == b@[j],
        decreases 20 - i,
    {
        if a[i] < b[i] {
            assert(a@[i as int] < b@[i as int]);
            return true;
        }
        if a[i] > b[i] {
            assert(b@[i as int] < a@[i as int]);
            assert(lex_lt(b@, a@));
            proof { lemma_lex_asym(b@, a@); }
            return false;
        }
        i = i + 1;
    }
    assert(a@ =~= b@);
    proof {
        if lex_lt(a@, b@) {
            lemma_lex_asym(a@, b@);
        }
    }
    false
}

/// Flips the bit at `index` of an id, counting from the most significant
/// bit of the first byte.
pub open spec fn flip_bit(id: Seq<u8>, index: int) -> Seq<u8> {
    id.update(index / 8, id[index / 8] ^ ((1u8 << ((7 - index % 8) as u8)) as u8))
}

/// Flips one bit of an id: the target of a bucket refresh.
pub fn flip_id_bit_at_index(node_id: NodeId, index: usize) -> (r: NodeId)
    requires
        index < 160,
    ensures
        r@ == flip_bit(node_id@, index as int),
{
    let mut id_bytes = node_id;
    let byte_index = index / 8;
    let bit_index = index % 8;
    let actual_bit_index: u8 = (7 - bit_index) as u8;
    let mask: u8 = 1u8 << actual_bit_index;
    let b = id_bytes[byte_index] ^ mask;
    id_bytes.set(byte_index, b);
    assert(id_bytes@ =~= flip_bit(node_id@, index as int));
    id_bytes
}

// ---------------------------------------------------------------------------
// Node handles.

/// A node's id and IPv4 address.
#[derive(Debug, Clone, Copy)]
pub struct NodeHandle {
    pub id: NodeId,
    pub ip: u32,
    pub port: u16,
}

/// Two handles name the same node at the same address.
pub open spec fn same_handle(a: NodeHandle, b: NodeHandle) -> bool {
    a.id@ == b.id@ && a.ip == b.ip && a.port == b.port
}

/// Compares two handles field by field.
pub fn handle_eq(a: &NodeHandle, b: &NodeHandle) -> (r: bool)
    ensures
        r == same_handle(*a, *b),
{
    hash_eq(&a.id, &b.id) && a.ip == b.ip && a.port == b.port
}

/// The handle that fills an unused slot: zero id, unspecified address.
pub fn dummy_handle() -> (r: NodeHandle)
    ensures
        r.id@ == Seq::new(20, |i: int| 0u8),
        r.ip == 0,
        r.port == 0,
{
    let r = NodeHandle { id: [0u8; 20], ip: 0, port: 0 };
    assert(r.id@ =~= Seq::new(20, |i: int| 0u8));
    r
}

// ---------------------------------------------------------------------------
// The list of all nodes met in a lookup, sorted by distance.

/// Entries are in non-decreasing order of distance.
pub open spec fn sorted_by_distance(s: Seq<(Distance, NodeHandle, bool)>) -> bool {
    forall|i: int, j: int| 0 <= i < j < s.len() ==> !lex_lt(#[trigger] s[j].0@, #[trigger] s[i].0@)
}

/// Every entry's distance is the distance of its node to `target`.
pub open spec fn distances_match(s: Seq<(Distance, NodeHandle, bool)>, target: Seq<u8>) -> bool {
    forall|i: int| 0 <= i < s.len() ==> (#[trigger] s[i]).0@ == xor_seq(target, s[i].1.id@)
}

/// The first position whose distance is not smaller than `d`.
pub open spec fn lower_bound(s: Seq<(Distance, NodeHandle, bool)>, d: Seq<u8>, p: int) -> bool {
    &&& 0 <= p <= s.len()
    &&& forall|i: int| 0 <= i < p ==> lex_lt((#[trigger] s[i]).0@, d)
    &&& p < s.len() ==> !lex_lt(s[p].0@, d)
}

/// Inserts the node into the list at its place by distance from the
/// target, before any entry at the same distance; a node that some entry
/// already holds is not inserted again.
#[verifier::spinoff_prover]
pub fn insert_sorted_node(nodes: &mut Vec<(Distance, NodeHandle, bool)>, target: &InfoHash, node: NodeHandle, pinged: bool)
    requires
        sorted_by_distance(old(nodes)@),
    ensures
        sorted_by_distance(final(nodes)@),
        has_node(old(nodes)@, node) ==> final(nodes)@ == old(nodes)@,
        !has_node(old(nodes)@, node) ==> exists|p: int| #[trigger] lower_bound(old(nodes)@, xor_seq(target@, node.id@), p)
            && final(nodes)@.len() == old(nodes)@.len() + 1
            && final(nodes)@[p].0@ == xor_seq(target@, node.id@)
            && final(nodes)@[p].1 == node
            && final(nodes)@[p].2 == pinged
            && final(nodes)@.take(p) == old(nodes)@.take(p)
            && final(nodes)@.skip(p + 1) == old(nodes)@.skip(p),
        old(nodes)@.len() <= final(nodes)@.len() <= old(nodes)@.len() + 1,
        forall|i: int| 0 <= i < old(nodes)@.len() ==> final(nodes)@.contains(#[trigger] old(nodes)@[i]),
        has_node(final(nodes)@, node),
        distances_match(old(nodes)@, target@) ==> distances_match(final(nodes)@, target@),
{
    let mut q: usize = 0;
    while q < nodes.len()
        invariant
            q <= nodes@.len(),
            nodes@ == old(nodes)@,
            sorted_by_distance(old(nodes)@),
            forall|i: int| 0 <= i < q ==> !same_handle((#[trigger] nodes@[i]).1, node),
        decreases nodes@.len() - q,
    {
        if handle_eq(&nodes[q].1, &node) {
            assert(has_node(old(nodes)@, node));
            assert forall|i: int| 0 <= i < old(nodes)@.len() implies nodes@.contains(#[trigger] old(nodes)@[i]) by {
                assert(nodes@[i] == old(nodes)@[i]);
            }
            return;
        }
        q = q + 1;
    }
    assert(!has_node(old(nodes)@, node));
    let node_dist = distance(target, &node.id);
    let ghost d = node_dist@;
    let mut p: usize = 0;
    let mut found = false;
    while p < nodes.len() && !found
        invariant
            p <= nodes@.len(),
            nodes@ == old(nodes)@,
            node_dist@ == d,
            forall|i: int| 0 <= i < p ==> lex_lt((#[trigger] nodes@[i]).0@, d),
            found ==> p < nodes@.len() && !lex_lt(nodes@[p as int].0@, d),
        decreases nodes@.len() - p, if found { 0int } else { 1int },
    {
        if distance_lt(&nodes[p].0, &node_dist) {
            p = p + 1;
        } else {
            found = true;
        }
    }
    assert(lower_bound(old(nodes)@, d, p as int));
    let ghost s = nodes@;
    nodes.insert(p, (node_dist, node, pinged));
    proof {
        let t = nodes@;
        assert(t.take(p as int) =~= s.take(p as int));
        assert(t.skip(p + 1) =~= s.skip(p as int));
        assert forall|i: int, j: int| 0 <= i < j < t.len() implies !lex_lt(#[trigger] t[j].0@, #[trigger] t[i].0@) by {
            if j < p {
                assert(t[i] == s[i] && t[j] == s[j]);
            } else if j == p {
                assert(t[i] == s[i]);
                lemma_lex_asym(s[i].0@, d);
            } else if i == p {
                let sp = s[p as int].0@;
                assert(t[j] == s[j - 1]);
                assert(!lex_lt(sp, d));
                if lex_lt(s[j - 1].0@, d) {
                    if j - 1 > p {
                        assert(!lex_lt(s[j - 1].0@, sp));
                        lemma_lex_total(s[j - 1].0@, sp);
                        if lex_lt(sp, s[j - 1].0@) {
                            lemma_lex_trans(sp, s[j - 1].0@, d);
                        }
                    }
                }
            } else if i < p {
                assert(t[i] == s[i] && t[j] == s[j - 1]);
            } else {
                assert(t[i] == s[i - 1] && t[j] == s[j - 1]);
            }
        }
        assert(t[p as int].0@ == d);
        assert forall|i: int| 0 <= i < s.len() implies t.contains(#[trigger] s[i]) by {
            if i < p {
                assert(t.take(p as int)[i] == t[i]);
                assert(s.take(p as int)[i] == s[i]);
                assert(t[i] == s[i]);
            } else {
                assert(t.skip(p + 1)[i - p] == t[i + 1]);
                assert(s.skip(p as int)[i - p] == s[i]);
                assert(t[i + 1] == s[i]);
            }
        }
        assert(same_handle(t[p as int].1, node));
        if distances_match(s, target@) {
            lemma_insert_keeps(s, t, target@, node, p as int);
        }
    }
}

// ---------------------------------------------------------------------------
// Picking nodes to query.

/// The first slot that takes a new node: an unused one, or a used one
/// whose node is farther from the target than the new node.
pub open spec fn takes_node(slot: (NodeHandle, bool), target: Seq<u8>, new_dist: Seq<u8>) -> bool {
    !slot.1 || lex_lt(new_dist, xor_seq(target, slot.0.id@))
}

/// The slot that `insert_closest_nodes` fills.
pub open spec fn closest_slot(s: Seq<(NodeHandle, bool)>, target: Seq<u8>, new_node: NodeHandle, p: int) -> bool {
    &&& 0 <= p <= s.len()
    &&& forall|i: int| 0 <= i < p ==> !takes_node(#[trigger] s[i], target, xor_seq(target, new_node.id@))
    &&& p < s.len() ==> takes_node(s[p], target, xor_seq(target, new_node.id@))
}

/// Places the node in the first unused slot, or over the first used slot
/// whose node is farther from the target.
pub fn insert_closest_nodes(nodes: &mut Vec<(NodeHandle, bool)>, target: &InfoHash, new_node: NodeHandle)
    ensures
        exists|p: int| #[trigger] closest_slot(old(nodes)@, target@, new_node, p) && if p < old(nodes)@.len() {
            final(nodes)@ == old(nodes)@.update(p, (new_node, true))
        } else {
            final(nodes)@ == old(nodes)@
        },
{
    let new_distance = distance(target, &new_node.id);
    let mut i: usize = 0;
    while i < nodes.len()
        invariant
            i <= nodes@.len(),
            nodes@ == old(nodes)@,
            new_distance@ == xor_seq(target@, new_node.id@),
            forall|j: int| 0 <= j < i ==> !takes_node(#[trigger] nodes@[j], target@, new_distance@),
        decreases nodes@.len() - i,
    {
        let used = nodes[i].1;
        if !used {
            assert(closest_slot(old(nodes)@, target@, new_node, i as int));
            nodes.set(i, (new_node, true));
            return;
        }
        let old_distance = distance(target, &nodes[i].0.id);
        if distance_lt(&new_distance, &old_distance) {
            assert(closest_slot(old(nodes)@, target@, new_node, i as int));
            nodes.set(i, (new_node, true));
            return;
        }
        i = i + 1;
    }
    assert(closest_slot(old(nodes)@, target@, new_node, nodes@.len() as int));
}

/// Number of nodes asked in the first round of a lookup.
pub const INITIAL_PICK_NUM: usize = 4;

/// Number of nodes asked in each later round.
pub const ITERATIVE_PICK_NUM: usize = 3;

/// Number of nodes announced to at the end of a lookup.
pub const ANNOUNCE_PICK_NUM: usize = 8;

/// Unused slots for picked nodes.
fn empty_slots(n: usize) -> (r: Vec<(NodeHandle, bool)>)
    ensures
        r@.len() == n,
        forall|i: int| 0 <= i < n ==> !(#[trigger] r@[i]).1 && r@[i].0.id@ == Seq::new(20, |k: int| 0u8)
            && r@[i].0.ip == 0 && r@[i].0.port == 0,
{
    let mut r: Vec<(NodeHandle, bool)> = Vec::new();
    let mut i: usize = 0;
    while i < n
        invariant
            i <= n,
            r@.len() == i,
            forall|j: int| 0 <= j < i ==> !(#[trigger] r@[j]).1 && r@[j].0.id@ == Seq::new(20, |k: int| 0u8)
                && r@[j].0.ip == 0 && r@[j].0.port == 0,
        decreases n - i,
    {
        r.push((dummy_handle(), false));
        i = i + 1;
    }
    r
}

/// Picks the nodes to ask in an iterative round: each node given, in
/// order, goes into the first of `ITERATIVE_PICK_NUM` slots that is unused
/// or holds a node farther from the target, replacing that node.
pub fn pick_iterate_nodes(unsorted_nodes: &Vec<NodeHandle>, target: &InfoHash) -> (r: Vec<(NodeHandle, bool)>)
    ensures
        r@.len() == ITERATIVE_PICK_NUM,
        exists|init: Seq<(NodeHandle, bool)>| #[trigger] unused_start(init)
            && r@ == fold_closest(init, unsorted_nodes@, target@),
{
    let mut pick_nodes = empty_slots(ITERATIVE_PICK_NUM);
    let ghost init = pick_nodes@;
    assert(unused_start(init));
    let mut i: usize = 0;
    while i < unsorted_nodes.len()
        invariant
            i <= unsorted_nodes@.len(),
            pick_nodes@.len() == ITERATIVE_PICK_NUM,
            unused_start(init),
            pick_nodes@ == fold_closest(init, unsorted_nodes@.take(i as int), target@),
        decreases unsorted_nodes@.len() - i,
    {
        let ghost before = pick_nodes@;
        insert_closest_nodes(&mut pick_nodes, target, unsorted_nodes[i]);
        proof {
            let p = choose|p: int| #[trigger] closest_slot(before, target@, unsorted_nodes@[i as int], p) && if p < before.len() {
                pick_nodes@ == before.update(p, (unsorted_nodes@[i as int], true))
            } else {
                pick_nodes@ == before
            };
            lemma_closest_slot_unique(before, target@, unsorted_nodes@[i as int], p);
            assert(unsorted_nodes@.take(i + 1).drop_last() =~= unsorted_nodes@.take(i as int));
        }
        i = i + 1;
    }
    assert(unsorted_nodes@.take(unsorted_nodes@.len() as int) =~= unsorted_nodes@);
    pick_nodes
}

/// The slot chosen for a new node.
pub open spec fn slot_of(s: Seq<(NodeHandle, bool)>, target: Seq<u8>, new_node: NodeHandle) -> int {
    choose|p: int| closest_slot(s, target, new_node, p)
}

/// Slots after inserting one node.
pub open spec fn insert_closest_spec(s: Seq<(NodeHandle, bool)>, target: Seq<u8>, new_node: NodeHandle) -> Seq<(NodeHandle, bool)> {
    let p = slot_of(s, target, new_node);
    if 0 <= p < s.len() { s.update(p, (new_node, true)) } else { s }
}

/// Slots after inserting each node in turn.
pub open spec fn fold_closest(s: Seq<(NodeHandle, bool)>, nodes: Seq<NodeHandle>, target: Seq<u8>) -> Seq<(NodeHandle, bool)>
    decreases nodes.len(),
{
    if nodes.len() == 0 {
        s
    } else {
        insert_closest_spec(fold_closest(s, nodes.drop_last(), target), target, nodes.last())
    }
}

/// A start of three unused slots holding zero-id placeholders.
pub open spec fn unused_start(init: Seq<(NodeHandle, bool)>) -> bool {
    init.len() == 3 && forall|i: int| 0 <= i < 3 ==> !(#[trigger] init[i]).1
        && init[i].0.id@ == Seq::new(20, |k: int| 0u8) && init[i].0.ip == 0 && init[i].0.port == 0
}

/// Some slot takes the new node, or none does and the node goes nowhere:
/// the slot `slot_of` names is always well defined.
proof fn lemma_slot_exists(s: Seq<(NodeHandle, bool)>, target: Seq<u8>, new_node: NodeHandle)
    ensures
        closest_slot(s, target, new_node, slot_of(s, target, new_node)),
    decreases s.len(),
{
    let d = xor_seq(target, new_node.id@);
    if s.len() == 0 {
        assert(closest_slot(s, target, new_node, 0));
    } else if takes_node(s[0], target, d) {
        assert(closest_slot(s, target, new_node, 0));
    } else {
        let t = s.skip(1);
        lemma_slot_exists(t, target, new_node);
        let q = slot_of(t, target, new_node);
        assert forall|i: int| 0 <= i < q + 1 implies !takes_node(#[trigger] s[i], target, d) by {
            if i > 0 {
                assert(s[i] == t[i - 1]);
            }
        }
        if q < t.len() {
            assert(s[q + 1] == t[q]);
        }
        assert(closest_slot(s, target, new_node, q + 1));
    }
}

/// Folding nodes into slots keeps their number, and once some node went
/// into a slot, some slot stays used.
proof fn lemma_fold_used(s: Seq<(NodeHandle, bool)>, nodes: Seq<NodeHandle>, target: Seq<u8>)
    requires
        s.len() > 0,
        nodes.len() > 0 || exists|i: int| 0 <= i < s.len() && (#[trigger] s[i]).1,
    ensures
        fold_closest(s, nodes, target).len() == s.len(),
        exists|i: int| 0 <= i < s.len() && (#[trigger] fold_closest(s, nodes, target)[i]).1,
    decreases nodes.len(),
{
    if nodes.len() > 0 {
        let prev = fold_closest(s, nodes.drop_last(), target);
        let n = nodes.last();
        if nodes.len() > 1 || exists|i: int| 0 <= i < s.len() && (#[trigger] s[i]).1 {
            lemma_fold_used(s, nodes.drop_last(), target);
        } else {
            assert(nodes.drop_last().len() == 0);
            assert(prev == s);
        }
        lemma_slot_exists(prev, target, n);
        let p = slot_of(prev, target, n);
        let f = fold_closest(s, nodes, target);
        if 0 <= p < prev.len() {
            assert(f[p].1);
        } else {
            assert(prev.len() > 0);
            assert(!takes_node(prev[0], target, xor_seq(target, n.id@)));
            assert(f[0].1);
        }
    }
}

/// Slots with a used one give at least one node.
proof fn lemma_used_nonempty(s: Seq<(NodeHandle, bool)>)
    requires
        exists|i: int| 0 <= i < s.len() && (#[trigger] s[i]).1,
    ensures
        used_nodes(s).len() > 0,
    decreases s.len(),
{
    if !s.last().1 {
        let i = choose|i: int| 0 <= i < s.len() && (#[trigger] s[i]).1;
        assert(s.drop_last()[i] == s[i]);
        lemma_used_nonempty(s.drop_last());
    }
}

proof fn lemma_closest_slot_unique(s: Seq<(NodeHandle, bool)>, target: Seq<u8>, new_node: NodeHandle, p: int)
    requires
        closest_slot(s, target, new_node, p),
    ensures
        slot_of(s, target, new_node) == p,
{
    let q = slot_of(s, target, new_node);
    assert(closest_slot(s, target, new_node, q));
    if q < p {
        assert(!takes_node(s[q], target, xor_seq(target, new_node.id@)));
    } else if q > p {
        assert(!takes_node(s[p], target, xor_seq(target, new_node.id@)));
    }
}

/// Picks the first nodes of the sorted list for the first round of a
/// lookup and marks them as requested.
pub fn pick_initial_nodes(sorted_nodes: &mut Vec<(Distance, NodeHandle, bool)>) -> (r: Vec<(NodeHandle, bool)>)
    ensures
        r@.len() == INITIAL_PICK_NUM,
        final(sorted_nodes)@.len() == old(sorted_nodes)@.len(),
        forall|i: int| 0 <= i < INITIAL_PICK_NUM ==> if i < old(sorted_nodes)@.len() {
            (#[trigger] r@[i]).0 == old(sorted_nodes)@[i].1 && r@[i].1
        } else {
            !r@[i].1 && r@[i].0.id@ == Seq::new(20, |k: int| 0u8) && r@[i].0.ip == 0 && r@[i].0.port == 0
        },
        forall|i: int| 0 <= i < old(sorted_nodes)@.len() ==> {
            &&& (#[trigger] final(sorted_nodes)@[i]).0 == old(sorted_nodes)@[i].0
            &&& final(sorted_nodes)@[i].1 == old(sorted_nodes)@[i].1
            &&& final(sorted_nodes)@[i].2 == (i < INITIAL_PICK_NUM || old(sorted_nodes)@[i].2)
        },
{
    let mut pick_nodes = empty_slots(INITIAL_PICK_NUM);
    let mut i: usize = 0;
    while i < INITIAL_PICK_NUM && i < sorted_nodes.len()
        invariant
            i <= INITIAL_PICK_NUM,
            i <= sorted_nodes@.len(),
            pick_nodes@.len() == INITIAL_PICK_NUM,
            sorted_nodes@.len() == old(sorted_nodes)@.len(),
            forall|j: int| 0 <= j < INITIAL_PICK_NUM ==> if j < i {
                (#[trigger] pick_nodes@[j]).0 == old(sorted_nodes)@[j].1 && pick_nodes@[j].1
            } else {
                !pick_nodes@[j].1 && pick_nodes@[j].0.id@ == Seq::new(20, |k: int| 0u8)
                    && pick_nodes@[j].0.ip == 0 && pick_nodes@[j].0.port == 0
            },
            forall|j: int| 0 <= j < old(sorted_nodes)@.len() ==> {
                &&& (#[trigger] sorted_nodes@[j]).0 == old(sorted_nodes)@[j].0
                &&& sorted_nodes@[j].1 == old(sorted_nodes)@[j].1
                &&& sorted_nodes@[j].2 == (j < i || old(sorted_nodes)@[j].2)
            },
        decreases INITIAL_PICK_NUM - i,
    {
        let (dist, handle, _) = sorted_nodes[i];
        pick_nodes.set(i, (handle, true));
        sorted_nodes.set(i, (dist, handle, true));
        i = i + 1;
    }
    pick_nodes
}

/// State of a lookup.
#[derive(Debug, PartialEq, Eq)]
pub enum LookupStatus {
    Searching,
    Completed,
    Failed,
    AnnounceFailed,
}

/// The smallest of `start` and the distances of the nodes to the target.
pub open spec fn closest_distance(start: Seq<u8>, nodes: Seq<NodeHandle>, target: Seq<u8>) -> Seq<u8>
    decreases nodes.len(),
{
    if nodes.len() == 0 {
        start
    } else {
        let c = closest_distance(start, nodes.drop_last(), target);
        let d = xor_seq(target, nodes.last().id@);
        if lex_lt(d, c) { d } else { c }
    }
}

/// Folds the distances of the nodes to the target, keeping the smallest.
pub fn fold_closest_distance(start: &Distance, nodes: &Vec<NodeHandle>, target: &InfoHash) -> (r: Distance)
    ensures
        r@ == closest_distance(start@, nodes@, target@),
{
    let mut closest = *start;
    let mut i: usize = 0;
    while i < nodes.len()
        invariant
            i <= nodes@.len(),
            closest@ == closest_distance(start@, nodes@.take(i as int), target@),
        decreases nodes@.len() - i,
    {
        let d = distance(target, &nodes[i].id);
        proof {
            assert(nodes@.take(i + 1).drop_last() =~= nodes@.take(i as int));
        }
        if distance_lt(&d, &closest) {
            closest = d;
        }
        i = i + 1;
    }
    assert(nodes@.take(nodes@.len() as int) =~= nodes@);
    closest
}

/// The list has an entry for the node.
pub open spec fn has_node(s: Seq<(Distance, NodeHandle, bool)>, n: NodeHandle) -> bool {
    exists|j: int| 0 <= j < s.len() && same_handle((#[trigger] s[j]).1, n)
}

/// The node is among the handles.
pub open spec fn contains_handle(s: Seq<NodeHandle>, n: NodeHandle) -> bool {
    exists|i: int| 0 <= i < s.len() && same_handle(#[trigger] s[i], n)
}

/// The node is the handle of one of the slots, used or not.
pub open spec fn in_slots(s: Seq<(NodeHandle, bool)>, n: NodeHandle) -> bool {
    exists|i: int| 0 <= i < s.len() && same_handle((#[trigger] s[i]).0, n)
}

fn contains_node(s: &Vec<NodeHandle>, n: &NodeHandle) -> (r: bool)
    ensures
        r == contains_handle(s@, *n),
{
    let mut i: usize = 0;
    while i < s.len()
        invariant
            i <= s@.len(),
            forall|j: int| 0 <= j < i ==> !same_handle(#[trigger] s@[j], *n),
        decreases s@.len() - i,
    {
        if handle_eq(&s[i], n) {
            return true;
        }
        i = i + 1;
    }
    false
}

fn slots_contain(s: &Vec<(NodeHandle, bool)>, n: &NodeHandle) -> (r: bool)
    ensures
        r == in_slots(s@, *n),
{
    let mut i: usize = 0;
    while i < s.len()
        invariant
            i <= s@.len(),
            forall|j: int| 0 <= j < i ==> !same_handle((#[trigger] s@[j]).0, *n),
        decreases s@.len() - i,
    {
        if handle_eq(&s[i].0, n) {
            return true;
        }
        i = i + 1;
    }
    false
}

/// The handles not yet requested from, in order.
pub open spec fn unrequested(nodes: Seq<NodeHandle>, requested: Seq<NodeHandle>) -> Seq<NodeHandle> {
    nodes.filter(|n: NodeHandle| !contains_handle(requested, n))
}

/// Keeps the nodes that were not requested from yet.
pub fn filter_unrequested(nodes: &Vec<NodeHandle>, requested: &Vec<NodeHandle>) -> (r: Vec<NodeHandle>)
    ensures
        r@ == unrequested(nodes@, requested@),
{
    let mut r: Vec<NodeHandle> = Vec::new();
    let mut i: usize = 0;
    while i < nodes.len()
        invariant
            i <= nodes@.len(),
            r@ == unrequested(nodes@.take(i as int), requested@),
        decreases nodes@.len() - i,
    {
        proof {
            assert(nodes@.take(i + 1).drop_last() =~= nodes@.take(i as int));
            reveal(Seq::filter);
        }
        if !contains_node(requested, &nodes[i]) {
            r.push(nodes[i]);
        }
        i = i + 1;
    }
    assert(nodes@.take(nodes@.len() as int) =~= nodes@);
    r
}

/// What a `get_peers` response carried besides the token: closer nodes,
/// peers of the torrent (IPv4 address and port), or both.
pub enum LookupInfo {
    Nodes(Vec<NodeHandle>),
    Values(Vec<(u32, u16)>),
    Both(Vec<NodeHandle>, Vec<(u32, u16)>),
}

/// What to do after a lookup took in an event.
pub struct LookupStep {
    /// `get_peers` requests to send, each under its transaction id.
    pub requests: Vec<(u64, NodeHandle)>,
    /// Peers of the torrent to hand on.
    pub peers: Vec<(u32, u16)>,
    /// The timeout of the answered transaction is to be cancelled.
    pub cancel_timeout: bool,
    /// The endgame started; its timeout goes under this id.
    pub endgame_timeout: Option<u64>,
    pub status: LookupStatus,
}

/// Some transaction waiting has the id.
pub open spec fn is_active(s: Seq<(u64, Distance)>, id: u64) -> bool {
    exists|i: int| 0 <= i < s.len() && (#[trigger] s[i]).0 == id
}

/// Every request handed out waits under its transaction id.
pub open spec fn requests_tracked(r: Seq<(u64, NodeHandle)>, active: Seq<(u64, Distance)>) -> bool {
    forall|k: int| 0 <= k < r.len() ==> is_active(active, (#[trigger] r[k]).0)
}

/// No node has two tokens.
pub open spec fn unique_token_nodes(s: Seq<(NodeHandle, Vec<u8>)>) -> bool {
    forall|i: int, j: int| 0 <= i < j < s.len() ==> !same_handle((#[trigger] s[i]).0, (#[trigger] s[j]).0)
}

/// The token received from the node, if any.
pub open spec fn token_of(s: Seq<(NodeHandle, Vec<u8>)>, n: NodeHandle) -> Option<Seq<u8>> {
    if exists|i: int| 0 <= i < s.len() && same_handle((#[trigger] s[i]).0, n) {
        Some(s[choose|i: int| 0 <= i < s.len() && same_handle((#[trigger] s[i]).0, n)].1@)
    } else {
        None
    }
}

proof fn lemma_token_at(s: Seq<(NodeHandle, Vec<u8>)>, n: NodeHandle, i: int)
    requires
        unique_token_nodes(s),
        0 <= i < s.len(),
        same_handle(s[i].0, n),
    ensures
        token_of(s, n) == Some(s[i].1@),
{
    let k = choose|k: int| 0 <= k < s.len() && same_handle((#[trigger] s[k]).0, n);
    if k < i {
        assert(!same_handle(s[k].0, s[i].0));
    } else if k > i {
        assert(!same_handle(s[i].0, s[k].0));
    }
}

/// The entries not asked yet, in order.
pub open spec fn unpinged(s: Seq<(Distance, NodeHandle, bool)>) -> Seq<(Distance, NodeHandle, bool)>
    decreases s.len(),
{
    if s.len() == 0 {
        Seq::empty()
    } else {
        let r = unpinged(s.drop_last());
        if !s.last().2 { r.push(s.last()) } else { r }
    }
}

/// The nodes, closest first, that gave a token, each with its token.
pub open spec fn token_nodes(s: Seq<(Distance, NodeHandle, bool)>, tokens: Seq<(NodeHandle, Vec<u8>)>) -> Seq<(NodeHandle, Seq<u8>)>
    decreases s.len(),
{
    if s.len() == 0 {
        Seq::empty()
    } else {
        let r = token_nodes(s.drop_last(), tokens);
        match token_of(tokens, s.last().1) {
            Some(t) => r.push((s.last().1, t)),
            None => r,
        }
    }
}

/// The bookkeeping of a lookup for the peers of one info hash.
pub struct TableLookup {
    table_id: NodeId,
    target_id: InfoHash,
    in_endgame: bool,
    recv_values: bool,
    will_announce: bool,
    /// Transactions still waiting for a response, with the distance that
    /// the nodes they bring must beat.
    active_lookups: Vec<(u64, Distance)>,
    requested_nodes: Vec<NodeHandle>,
    /// Every node met, closest to the target first, with whether it was
    /// asked.
    all_sorted_nodes: Vec<(Distance, NodeHandle, bool)>,
    announce_tokens: Vec<(NodeHandle, Vec<u8>)>,
    id_generator: SequentialIds,
}

/// The handles of the used slots, in order.
pub open spec fn used_nodes(s: Seq<(NodeHandle, bool)>) -> Seq<NodeHandle>
    decreases s.len(),
{
    if s.len() == 0 {
        Seq::empty()
    } else {
        let r = used_nodes(s.drop_last());
        if s.last().1 { r.push(s.last().0) } else { r }
    }
}

/// The id a generator at `start` hands out `k` ids later.
pub open spec fn id_after(start: u64, k: nat) -> u64
    decreases k,
{
    if k == 0 {
        start
    } else {
        let p = id_after(start, (k - 1) as nat);
        if p == u64::MAX { 0 } else { (p + 1) as u64 }
    }
}

/// The requests are the nodes, in order, with the ids handed out from
/// `start` on.
pub open spec fn round_requests(r: Seq<(u64, NodeHandle)>, start: u64, nodes: Seq<NodeHandle>) -> bool {
    r.len() == nodes.len() && forall|i: int| 0 <= i < r.len() ==> (#[trigger] r[i]).0 == id_after(start, i as nat) && r[i].1 == nodes[i]
}

/// The distance a round's request must beat: the given one, or the
/// node's own distance to the target.
pub open spec fn round_dist(d: Option<Distance>, n: NodeHandle, target: Seq<u8>) -> Seq<u8> {
    match d {
        Some(x) => x@,
        None => xor_seq(n.id@, target),
    }
}

/// After a round the transactions waiting are those before, then one
/// per request with the distance it must beat.
pub open spec fn round_active(after: Seq<(u64, Distance)>, before: Seq<(u64, Distance)>, r: Seq<(u64, NodeHandle)>,
    d: Option<Distance>, target: Seq<u8>) -> bool {
    &&& after.len() == before.len() + r.len()
    &&& after.take(before.len() as int) == before
    &&& forall|j: int| 0 <= j < r.len() ==> (#[trigger] after[before.len() + j]).0 == r[j].0
        && after[before.len() + j].1@ == round_dist(d, r[j].1, target)
}

impl TableLookup {
    /// The node list is sorted by distance and every distance is the one
    /// of its node to the target.
    pub closed spec fn wf(&self) -> bool {
        &&& sorted_by_distance(self.all_sorted_nodes@)
        &&& distances_match(self.all_sorted_nodes@, self.target_id@)
        &&& unique_token_nodes(self.announce_tokens@)
    }

    pub closed spec fn spec_target(&self) -> Seq<u8> {
        self.target_id@
    }

    pub closed spec fn sorted_nodes(&self) -> Seq<(Distance, NodeHandle, bool)> {
        self.all_sorted_nodes@
    }

    pub closed spec fn requested(&self) -> Seq<NodeHandle> {
        self.requested_nodes@
    }

    pub closed spec fn searching(&self) -> bool {
        self.in_endgame || self.active_lookups@.len() > 0
    }

    /// Transactions waiting for a response, with the distance that the
    /// nodes they bring must beat.
    pub closed spec fn active(&self) -> Seq<(u64, Distance)> {
        self.active_lookups@
    }

    /// The next transaction id.
    pub closed spec fn ids_next(&self) -> u64 {
        self.id_generator.next()
    }

    pub closed spec fn endgame(&self) -> bool {
        self.in_endgame
    }

    pub closed spec fn got_values(&self) -> bool {
        self.recv_values
    }

    pub closed spec fn announcing(&self) -> bool {
        self.will_announce
    }

    /// The announce tokens received, by node.
    pub closed spec fn tokens(&self) -> Seq<(NodeHandle, Vec<u8>)> {
        self.announce_tokens@
    }

    /// Everything but the sorted node list is the same.
    pub closed spec fn same_book(&self, other: &TableLookup) -> bool {
        &&& self.table_id == other.table_id
        &&& self.target_id == other.target_id
        &&& self.in_endgame == other.in_endgame
        &&& self.recv_values == other.recv_values
        &&& self.will_announce == other.will_announce
        &&& self.active_lookups == other.active_lookups
        &&& self.requested_nodes == other.requested_nodes
        &&& self.announce_tokens == other.announce_tokens
        &&& self.id_generator == other.id_generator
    }

    /// Sorts the closest good nodes of the routing table and picks the
    /// nodes of the first round.
    fn gather(table_id: NodeId, target_id: InfoHash, id_generator: SequentialIds, will_announce: bool,
        closest_good: &Vec<NodeHandle>) -> (r: (TableLookup, Vec<(NodeHandle, bool)>))
        requires
        ensures
            r.0.wf(),
            r.0.spec_target() == target_id@,
            !r.0.searching(),
            r.0.requested().len() == 0,
            r.0.active().len() == 0,
            r.0.ids_next() == id_generator.next(),
            !r.0.got_values(),
            r.0.announcing() == will_announce,
            r.0.tokens().len() == 0,
            r.1@.len() == INITIAL_PICK_NUM,
            forall|i: int| 0 <= i < INITIAL_PICK_NUM ==> ((#[trigger] r.1@[i]).1 <==> i < r.0.sorted_nodes().len()),
            forall|i: int| 0 <= i < INITIAL_PICK_NUM && i < r.0.sorted_nodes().len() ==>
                (#[trigger] r.1@[i]).0 == r.0.sorted_nodes()[i].1,
            forall|k: int| 0 <= k < closest_good@.len() ==> has_node(r.0.sorted_nodes(), #[trigger] closest_good@[k]),
            r.0.sorted_nodes().len() <= closest_good@.len(),
            forall|i: int| 0 <= i < r.0.sorted_nodes().len() && i < INITIAL_PICK_NUM ==> (#[trigger] r.0.sorted_nodes()[i]).2,
    {
        let mut all_sorted_nodes: Vec<(Distance, NodeHandle, bool)> = Vec::new();
        let mut i: usize = 0;
        while i < closest_good.len()
            invariant
                i <= closest_good@.len(),
                all_sorted_nodes@.len() <= i,
                sorted_by_distance(all_sorted_nodes@),
                distances_match(all_sorted_nodes@, target_id@),
                forall|k: int| 0 <= k < i ==> has_node(all_sorted_nodes@, #[trigger] closest_good@[k]),
            decreases closest_good@.len() - i,
        {
            let ghost before = all_sorted_nodes@;
            insert_sorted_node(&mut all_sorted_nodes, &target_id, closest_good[i], false);
            proof {
                assert forall|k: int| 0 <= k < i + 1 implies has_node(all_sorted_nodes@, #[trigger] closest_good@[k]) by {
                    if k < i {
                        let j0 = choose|j: int| 0 <= j < before.len() && same_handle((#[trigger] before[j]).1, closest_good@[k]);
                        assert(all_sorted_nodes@.contains(before[j0]));
                    }
                }
            }
            i = i + 1;
        }
        let ghost mid = all_sorted_nodes@;
        let picks = pick_initial_nodes(&mut all_sorted_nodes);
        let lookup = TableLookup {
            table_id,
            target_id,
            in_endgame: false,
            recv_values: false,
            will_announce,
            active_lookups: Vec::new(),
            requested_nodes: Vec::new(),
            all_sorted_nodes,
            announce_tokens: Vec::new(),
            id_generator,
        };
        assert(sorted_by_distance(lookup.all_sorted_nodes@)) by {
            assert forall|a: int, b: int| 0 <= a < b < lookup.all_sorted_nodes@.len()
                implies !lex_lt(#[trigger] lookup.all_sorted_nodes@[b].0@, #[trigger] lookup.all_sorted_nodes@[a].0@) by {
                assert(lookup.all_sorted_nodes@[a].0 == mid[a].0);
                assert(lookup.all_sorted_nodes@[b].0 == mid[b].0);
            }
        }
        proof {
            assert forall|a: int| 0 <= a < lookup.all_sorted_nodes@.len() implies
                (#[trigger] lookup.all_sorted_nodes@[a]).0@ == xor_seq(target_id@, lookup.all_sorted_nodes@[a].1.id@) by {
                assert(lookup.all_sorted_nodes@[a].0 == mid[a].0);
                assert(lookup.all_sorted_nodes@[a].1 == mid[a].1);
            }
            assert forall|k: int| 0 <= k < closest_good@.len() implies has_node(lookup.sorted_nodes(), #[trigger] closest_good@[k]) by {
                let j0 = choose|j: int| 0 <= j < mid.len() && same_handle((#[trigger] mid[j]).1, closest_good@[k]);
                assert(lookup.all_sorted_nodes@[j0].1 == mid[j0].1);
                assert(lookup.sorted_nodes()[j0] == lookup.all_sorted_nodes@[j0]);
            }
        }
        (lookup, picks)
    }

    /// Starts the lookup for the target from the closest good nodes of the
    /// routing table: asks the closest of them, each under a transaction of
    /// its own that waits for nodes closer than the node itself. Without
    /// any node there is nothing to look up.
    pub fn new(table_id: NodeId, target_id: InfoHash, id_generator: SequentialIds, will_announce: bool,
        closest_good: &Vec<NodeHandle>) -> (r: Option<(TableLookup, Vec<(u64, NodeHandle)>)>)
        requires
        ensures
            r is None <==> closest_good@.len() == 0,
            r matches Some((l, q)) ==> {
                let n = if l.sorted_nodes().len() < INITIAL_PICK_NUM { l.sorted_nodes().len() as int } else { INITIAL_PICK_NUM as int };
                &&& l.wf()
                &&& l.spec_target() == target_id@
                &&& !l.endgame() && !l.got_values() && l.tokens().len() == 0
                &&& l.announcing() == will_announce
                &&& forall|k: int| 0 <= k < closest_good@.len() ==> has_node(l.sorted_nodes(), #[trigger] closest_good@[k])
                &&& l.sorted_nodes().len() <= closest_good@.len()
                &&& q@.len() == n
                &&& forall|i: int| 0 <= i < n ==> (#[trigger] q@[i]).0 == id_after(id_generator.next(), i as nat)
                    && q@[i].1 == l.sorted_nodes()[i].1 && l.sorted_nodes()[i].2
                &&& round_active(l.active(), Seq::empty(), q@, None, target_id@)
                &&& l.requested() == Seq::new(n as nat, |i: int| q@[i].1)
                &&& l.ids_next() == id_after(id_generator.next(), n as nat)
            },
    {
        let (mut lookup, picks) = TableLookup::gather(table_id, target_id, id_generator, will_announce, closest_good);
        let ghost sorted = lookup.all_sorted_nodes@;
        assert(lookup.active() =~= Seq::<(u64, Distance)>::empty());
        assert(lookup.requested() =~= Seq::<NodeHandle>::empty());
        let ghost n = if sorted.len() < INITIAL_PICK_NUM { sorted.len() as int } else { INITIAL_PICK_NUM as int };
        proof {
            lemma_used_prefix(picks@, n);
            if closest_good@.len() > 0 {
                assert(has_node(sorted, closest_good@[0]));
            }
        }
        let requests = lookup.start_request_round(&picks, None);
        if requests.len() == 0 {
            None
        } else {
            proof {
                assert forall|i: int| 0 <= i < n implies (#[trigger] requests@[i]).1 == lookup.sorted_nodes()[i].1 by {
                    assert(used_nodes(picks@)[i] == picks@[i].0);
                }
                assert(lookup.requested() =~= Seq::new(n as nat, |i: int| requests@[i].1));
                assert(round_active(lookup.active(), Seq::empty(), requests@, None, target_id@));
            }
            Some((lookup, requests))
        }
    }

    /// Asks each node of a used slot under a new transaction; the nodes it
    /// brings must beat `dist`, or the node's own distance when none is
    /// given. When nothing was sent, no transaction is left waiting.
    fn start_request_round(&mut self, picks: &Vec<(NodeHandle, bool)>, dist: Option<Distance>) -> (r: Vec<(u64, NodeHandle)>)
        requires
            old(self).wf(),
        ensures
            final(self).wf(),
            final(self).spec_target() == old(self).spec_target(),
            final(self).sorted_nodes() == old(self).sorted_nodes(),
            final(self).endgame() == old(self).endgame(),
            final(self).got_values() == old(self).got_values(),
            final(self).announcing() == old(self).announcing(),
            final(self).tokens() == old(self).tokens(),
            round_requests(r@, old(self).ids_next(), used_nodes(picks@)),
            r@.len() > 0 ==> round_active(final(self).active(), old(self).active(), r@, dist, old(self).spec_target()),
            r@.len() == 0 ==> final(self).active().len() == 0,
            final(self).requested() == old(self).requested() + used_nodes(picks@),
            final(self).ids_next() == id_after(old(self).ids_next(), r@.len()),
    {
        let ghost a0 = self.active_lookups@;
        let ghost q0 = self.requested_nodes@;
        let ghost n0 = self.id_generator.next();
        let mut out: Vec<(u64, NodeHandle)> = Vec::new();
        let mut i: usize = 0;
        assert(a0.take(a0.len() as int) =~= a0);
        assert(picks@.take(0) =~= Seq::<(NodeHandle, bool)>::empty());
        assert(q0 + used_nodes(picks@.take(0)) =~= q0);
        while i < picks.len()
            invariant
                i <= picks@.len(),
                self.wf(),
                self.target_id == old(self).target_id,
                self.all_sorted_nodes == old(self).all_sorted_nodes,
                self.in_endgame == old(self).in_endgame,
                self.recv_values == old(self).recv_values,
                self.will_announce == old(self).will_announce,
                self.announce_tokens == old(self).announce_tokens,
                a0 == old(self).active_lookups@,
                q0 == old(self).requested_nodes@,
                n0 == old(self).id_generator.next(),
                round_requests(out@, n0, used_nodes(picks@.take(i as int))),
                round_active(self.active_lookups@, a0, out@, dist, self.target_id@),
                self.requested_nodes@ == q0 + used_nodes(picks@.take(i as int)),
                self.id_generator.next() == id_after(n0, out@.len()),
            decreases picks@.len() - i,
        {
            proof {
                assert(picks@.take(i + 1).drop_last() =~= picks@.take(i as int));
                assert(picks@.take(i + 1).last() == picks@[i as int]);
            }
            if picks[i].1 {
                let node = picks[i].0;
                let d = match dist {
                    Some(x) => x,
                    None => distance(&node.id, &self.target_id),
                };
                let ghost before = self.active_lookups@;
                let ghost k = out@.len();
                let id = self.id_generator.next_id();
                self.active_lookups.push((id, d));
                self.requested_nodes.push(node);
                out.push((id, node));
                proof {
                    assert(id_after(n0, (k + 1) as nat) == self.id_generator.next());
                    assert(self.active_lookups@.take(a0.len() as int) =~= before.take(a0.len() as int));
                    assert forall|j: int| 0 <= j < out@.len() implies (#[trigger] self.active_lookups@[a0.len() + j]).0 == out@[j].0
                        && self.active_lookups@[a0.len() + j].1@ == round_dist(dist, out@[j].1, self.target_id@) by {
                        if j < k {
                            assert(self.active_lookups@[a0.len() + j] == before[a0.len() + j]);
                        }
                    }
                    assert(self.requested_nodes@ =~= q0 + used_nodes(picks@.take(i + 1)));
                }
            }
            i = i + 1;
        }
        proof {
            assert(picks@.take(i as int) =~= picks@);
        }
        if out.len() == 0 {
            self.active_lookups.clear();
        }
        out
    }

    /// The info hash being looked up.
    pub fn info_hash(&self) -> (r: InfoHash)
        ensures
            r@ == self.spec_target(),
    {
        self.target_id
    }

    /// Searching while in the endgame or while a transaction is open;
    /// completed otherwise.
    pub fn current_lookup_status(&self) -> (r: LookupStatus)
        ensures
            r == (if self.searching() { LookupStatus::Searching } else { LookupStatus::Completed }),
    {
        if self.in_endgame || self.active_lookups.len() > 0 {
            LookupStatus::Searching
        } else {
            LookupStatus::Completed
        }
    }

    /// Takes in the nodes of a response whose transaction had to beat
    /// `dist_to_beat`. Nodes not asked yet go into the sorted list. When
    /// one of them is closer than `dist_to_beat`, the closest ones are
    /// picked for the next round, marked in the list, and the new distance
    /// to beat is the closest distance.
    pub fn absorb_nodes(&mut self, dist_to_beat: &Distance, nodes: &Vec<NodeHandle>) -> (r: (Option<Vec<(NodeHandle, bool)>>, Distance))
        requires
            old(self).wf(),
        ensures
            final(self).wf(),
            final(self).spec_target() == old(self).spec_target(),
            final(self).requested() == old(self).requested(),
            final(self).searching() == old(self).searching(),
            final(self).same_book(old(self)),
            ({
                let fresh = unrequested(nodes@, old(self).requested());
                let c = closest_distance(dist_to_beat@, fresh, old(self).spec_target());
                &&& fresh.len() == 0 ==> r.0 is None && r.1@ == dist_to_beat@
                    && final(self).sorted_nodes() == old(self).sorted_nodes()
                &&& fresh.len() > 0 && !lex_lt(c, dist_to_beat@) ==> r.0 is None && r.1@ == dist_to_beat@
                &&& fresh.len() > 0 && lex_lt(c, dist_to_beat@) ==> r.1@ == c && (r.0 matches Some(slots)
                    && slots@.len() == ITERATIVE_PICK_NUM
                    && exists|init: Seq<(NodeHandle, bool)>| #[trigger] unused_start(init)
                        && slots@ == fold_closest(init, fresh, old(self).spec_target()))
                &&& forall|k: int| 0 <= k < fresh.len() ==> has_node(final(self).sorted_nodes(), #[trigger] fresh[k])
            }),
            forall|i: int| 0 <= i < old(self).sorted_nodes().len() ==>
                final(self).sorted_nodes().contains(#[trigger] old(self).sorted_nodes()[i]),
            old(self).sorted_nodes().len() <= final(self).sorted_nodes().len()
                <= old(self).sorted_nodes().len() + unrequested(nodes@, old(self).requested()).len(),
    {
        let fresh = filter_unrequested(nodes, &self.requested_nodes);
        proof {
            lemma_filter_len(nodes@, self.requested_nodes@);
        }
        if fresh.len() == 0 {
            return (None, *dist_to_beat);
        }
        let closest = fold_closest_distance(dist_to_beat, &fresh, &self.target_id);
        if !distance_lt(&closest, dist_to_beat) {
            self.insert_all(&fresh, None);
            (None, *dist_to_beat)
        } else {
            let iterate = pick_iterate_nodes(&fresh, &self.target_id);
            self.insert_all(&fresh, Some(&iterate));
            (Some(iterate), closest)
        }
    }

    /// Inserts the nodes into the sorted list; a node is marked as asked
    /// when it is among the picked slots.
    fn insert_all(&mut self, fresh: &Vec<NodeHandle>, picked: Option<&Vec<(NodeHandle, bool)>>)
        requires
            old(self).wf(),
        ensures
            final(self).wf(),
            final(self).spec_target() == old(self).spec_target(),
            final(self).requested() == old(self).requested(),
            final(self).searching() == old(self).searching(),
            final(self).same_book(old(self)),
            forall|k: int| 0 <= k < fresh@.len() ==> has_node(final(self).sorted_nodes(), #[trigger] fresh@[k]),
            forall|i: int| 0 <= i < old(self).sorted_nodes().len() ==>
                final(self).sorted_nodes().contains(#[trigger] old(self).sorted_nodes()[i]),
            old(self).sorted_nodes().len() <= final(self).sorted_nodes().len() <= old(self).sorted_nodes().len() + fresh@.len(),
    {
        let ghost start = self.all_sorted_nodes@;
        let mut i: usize = 0;
        while i < fresh.len()
            invariant
                i <= fresh@.len(),
                start.len() <= self.all_sorted_nodes@.len() <= start.len() + i,
                sorted_by_distance(self.all_sorted_nodes@),
                distances_match(self.all_sorted_nodes@, self.target_id@),
                self.target_id == old(self).target_id,
                self.requested_nodes == old(self).requested_nodes,
                self.in_endgame == old(self).in_endgame,
                self.active_lookups == old(self).active_lookups,
                self.table_id == old(self).table_id,
                self.recv_values == old(self).recv_values,
                self.will_announce == old(self).will_announce,
                self.announce_tokens == old(self).announce_tokens,
                self.id_generator == old(self).id_generator,
                start == old(self).all_sorted_nodes@,
                forall|k: int| 0 <= k < i ==> has_node(self.all_sorted_nodes@, #[trigger] fresh@[k]),
                forall|a: int| 0 <= a < start.len() ==> self.all_sorted_nodes@.contains(#[trigger] start[a]),
            decreases fresh@.len() - i,
        {
            let node = fresh[i];
            let will_ping = match picked {
                Some(slots) => slots_contain(slots, &node),
                None => false,
            };
            let ghost before = self.all_sorted_nodes@;
            insert_sorted_node(&mut self.all_sorted_nodes, &self.target_id, node, will_ping);
            proof {
                assert forall|k: int| 0 <= k < i + 1 implies has_node(self.all_sorted_nodes@, #[trigger] fresh@[k]) by {
                    if k < i {
                        let j0 = choose|j: int| 0 <= j < before.len() && same_handle((#[trigger] before[j]).1, fresh@[k]);
                        assert(self.all_sorted_nodes@.contains(before[j0]));
                    }
                }
                assert forall|a: int| 0 <= a < start.len() implies self.all_sorted_nodes@.contains(#[trigger] start[a]) by {
                    let j0 = choose|j: int| 0 <= j < before.len() && before[j] == start[a];
                    assert(self.all_sorted_nodes@.contains(before[j0]));
                }
            }
            i = i + 1;
        }
        assert forall|k: int| 0 <= k < fresh@.len() implies has_node(self.sorted_nodes(), #[trigger] fresh@[k]) by {
            let j0 = choose|j: int| 0 <= j < self.all_sorted_nodes@.len() && same_handle((#[trigger] self.all_sorted_nodes@[j]).1, fresh@[k]);
            assert(self.sorted_nodes()[j0] == self.all_sorted_nodes@[j0]);
        }
    }
}

proof fn lemma_used_prefix(s: Seq<(NodeHandle, bool)>, m: int)
    requires
        0 <= m <= s.len(),
        forall|i: int| 0 <= i < s.len() ==> ((#[trigger] s[i]).1 <==> i < m),
    ensures
        used_nodes(s).len() == m,
        forall|i: int| 0 <= i < m ==> #[trigger] used_nodes(s)[i] == s[i].0,
    decreases s.len(),
{
    if s.len() > 0 {
        let p = s.drop_last();
        let m2 = if m == s.len() { m - 1 } else { m };
        assert forall|i: int| 0 <= i < p.len() implies ((#[trigger] p[i]).1 <==> i < m2) by {
            assert(p[i] == s[i]);
        }
        lemma_used_prefix(p, m2);
        assert(s.last() == s[s.len() - 1]);
        assert forall|i: int| 0 <= i < m implies #[trigger] used_nodes(s)[i] == s[i].0 by {
            if i < m2 {
                assert(used_nodes(p)[i] == p[i].0);
            }
        }
    }
}

impl TableLookup {
    /// Position of the first transaction with the id.
    fn position_active(&self, id: u64) -> (r: Option<usize>)
        ensures
            match r {
                Some(i) => i < self.active_lookups@.len() && self.active_lookups@[i as int].0 == id
                    && forall|j: int| 0 <= j < i ==> (#[trigger] self.active_lookups@[j]).0 != id,
                None => !is_active(self.active_lookups@, id),
            },
    {
        let mut i: usize = 0;
        while i < self.active_lookups.len()
            invariant
                i <= self.active_lookups@.len(),
                forall|j: int| 0 <= j < i ==> (#[trigger] self.active_lookups@[j]).0 != id,
            decreases self.active_lookups@.len() - i,
        {
            if self.active_lookups[i].0 == id {
                return Some(i);
            }
            i = i + 1;
        }
        None
    }

    /// Keeps the token the node gave, replacing an earlier one.
    fn store_token(&mut self, node: NodeHandle, token: Vec<u8>)
        requires
            old(self).wf(),
        ensures
            final(self).wf(),
            token_of(final(self).tokens(), node) == Some(token@),
            forall|n: NodeHandle| !same_handle(n, node) ==> #[trigger] token_of(final(self).tokens(), n) == token_of(old(self).tokens(), n),
            final(self).sorted_nodes() == old(self).sorted_nodes(),
            final(self).spec_target() == old(self).spec_target(),
            final(self).active() == old(self).active(),
            final(self).requested() == old(self).requested(),
            final(self).endgame() == old(self).endgame(),
            final(self).got_values() == old(self).got_values(),
            final(self).announcing() == old(self).announcing(),
            final(self).ids_next() == old(self).ids_next(),
    {
        let ghost s0 = self.announce_tokens@;
        let mut i: usize = 0;
        while i < self.announce_tokens.len()
            invariant
                i <= self.announce_tokens@.len(),
                self.announce_tokens@ == s0,
                *self == *old(self),
                old(self).wf(),
                forall|j: int| 0 <= j < i ==> !same_handle((#[trigger] s0[j]).0, node),
            decreases self.announce_tokens@.len() - i,
        {
            if handle_eq(&self.announce_tokens[i].0, &node) {
                self.announce_tokens.set(i, (node, token));
                proof {
                    let s1 = self.announce_tokens@;
                    assert forall|a: int, b: int| 0 <= a < b < s1.len() implies !same_handle((#[trigger] s1[a]).0, (#[trigger] s1[b]).0) by {
                        if a == i {
                            assert(!same_handle(s0[a].0, s0[b].0));
                        } else if b == i {
                            assert(!same_handle(s0[a].0, s0[b].0));
                        } else {
                            assert(s1[a] == s0[a] && s1[b] == s0[b]);
                        }
                    }
                    lemma_token_at(s1, node, i as int);
                    assert forall|n: NodeHandle| !same_handle(n, node) implies #[trigger] token_of(s1, n) == token_of(s0, n) by {
                        if exists|k: int| 0 <= k < s0.len() && same_handle((#[trigger] s0[k]).0, n) {
                            let k = choose|k: int| 0 <= k < s0.len() && same_handle((#[trigger] s0[k]).0, n);
                            lemma_token_at(s0, n, k);
                            assert(k != i);
                            assert(s1[k] == s0[k]);
                            lemma_token_at(s1, n, k);
                        } else {
                            assert forall|k: int| 0 <= k < s1.len() implies !same_handle((#[trigger] s1[k]).0, n) by {
                                if k != i {
                                    assert(s1[k] == s0[k]);
                                }
                            }
                        }
                    }
                }
                return;
            }
            i = i + 1;
        }
        self.announce_tokens.push((node, token));
        proof {
            let s1 = self.announce_tokens@;
            assert forall|a: int, b: int| 0 <= a < b < s1.len() implies !same_handle((#[trigger] s1[a]).0, (#[trigger] s1[b]).0) by {
                if b == s0.len() {
                    assert(s1[a] == s0[a]);
                } else {
                    assert(s1[a] == s0[a] && s1[b] == s0[b]);
                }
            }
            lemma_token_at(s1, node, s0.len() as int);
            assert forall|n: NodeHandle| !same_handle(n, node) implies #[trigger] token_of(s1, n) == token_of(s0, n) by {
                if exists|k: int| 0 <= k < s0.len() && same_handle((#[trigger] s0[k]).0, n) {
                    let k = choose|k: int| 0 <= k < s0.len() && same_handle((#[trigger] s0[k]).0, n);
                    lemma_token_at(s0, n, k);
                    assert(s1[k] == s0[k]);
                    lemma_token_at(s1, n, k);
                } else {
                    assert forall|k: int| 0 <= k < s1.len() implies !same_handle((#[trigger] s1[k]).0, n) by {
                        if k < s0.len() {
                            assert(s1[k] == s0[k]);
                        }
                    }
                }
            }
        }
    }

    /// The token the node gave, if any.
    fn find_token(&self, node: &NodeHandle) -> (r: Option<Vec<u8>>)
        requires
            self.wf(),
        ensures
            match r {
                Some(t) => token_of(self.tokens(), *node) == Some(t@),
                None => token_of(self.tokens(), *node) is None,
            },
    {
        let mut i: usize = 0;
        while i < self.announce_tokens.len()
            invariant
                i <= self.announce_tokens@.len(),
                self.wf(),
                forall|j: int| 0 <= j < i ==> !same_handle((#[trigger] self.announce_tokens@[j]).0, *node),
            decreases self.announce_tokens@.len() - i,
        {
            if handle_eq(&self.announce_tokens[i].0, node) {
                proof {
                    lemma_token_at(self.announce_tokens@, *node, i as int);
                }
                return Some(vstd::slice::slice_to_vec(self.announce_tokens[i].1.as_slice()));
            }
            i = i + 1;
        }
        None
    }

    /// Enters the endgame: takes an id for its timeout and, unless peers
    /// were received, asks every node of the list not asked yet, each under
    /// a transaction of its own, marking it asked.
    fn start_endgame_round(&mut self) -> (r: (Vec<(u64, NodeHandle)>, u64))
        requires
            old(self).wf(),
        ensures
            final(self).wf(),
            final(self).endgame(),
            r.1 == old(self).ids_next(),
            final(self).spec_target() == old(self).spec_target(),
            final(self).requested() == old(self).requested(),
            final(self).got_values() == old(self).got_values(),
            final(self).announcing() == old(self).announcing(),
            final(self).tokens() == old(self).tokens(),
            final(self).sorted_nodes().len() == old(self).sorted_nodes().len(),
            forall|i: int| 0 <= i < old(self).sorted_nodes().len() ==>
                (#[trigger] final(self).sorted_nodes()[i]).0 == old(self).sorted_nodes()[i].0
                && final(self).sorted_nodes()[i].1 == old(self).sorted_nodes()[i].1
                && final(self).sorted_nodes()[i].2 == (old(self).sorted_nodes()[i].2 || !old(self).got_values()),
            old(self).got_values() ==> r.0@.len() == 0 && final(self).active() == old(self).active()
                && final(self).ids_next() == id_after(old(self).ids_next(), 1),
            !old(self).got_values() ==> {
                let u = unpinged(old(self).sorted_nodes());
                &&& r.0@.len() == u.len()
                &&& forall|k: int| 0 <= k < u.len() ==> (#[trigger] r.0@[k]).0 == id_after(old(self).ids_next(), (k + 1) as nat)
                    && r.0@[k].1 == u[k].1
                &&& final(self).active().len() == old(self).active().len() + u.len()
                &&& final(self).active().take(old(self).active().len() as int) == old(self).active()
                &&& forall|k: int| 0 <= k < u.len() ==> (#[trigger] final(self).active()[old(self).active().len() + k]).0 == r.0@[k].0
                    && final(self).active()[old(self).active().len() + k].1 == u[k].0
                &&& final(self).ids_next() == id_after(old(self).ids_next(), (u.len() + 1) as nat)
            },
    {
        self.in_endgame = true;
        let endgame_id = self.id_generator.next_id();
        proof {
            lemma_id_after_one(old(self).id_generator.next());
        }
        let mut out: Vec<(u64, NodeHandle)> = Vec::new();
        if self.recv_values {
            return (out, endgame_id);
        }
        let ghost s0 = self.all_sorted_nodes@;
        let ghost a0 = self.active_lookups@;
        let ghost n1 = self.id_generator.next();
        let n = self.all_sorted_nodes.len();
        let mut i: usize = 0;
        assert(a0.take(a0.len() as int) =~= a0);
        assert(s0.take(0) =~= Seq::<(Distance, NodeHandle, bool)>::empty());
        while i < n
            invariant
                n == s0.len(),
                i <= n,
                self.all_sorted_nodes@.len() == n,
                self.target_id == old(self).target_id,
                self.requested_nodes == old(self).requested_nodes,
                self.recv_values == old(self).recv_values,
                self.will_announce == old(self).will_announce,
                self.announce_tokens == old(self).announce_tokens,
                self.in_endgame,
                !self.recv_values,
                s0 == old(self).all_sorted_nodes@,
                a0 == old(self).active_lookups@,
                n1 == id_after(old(self).id_generator.next(), 1),
                forall|j: int| 0 <= j < n ==> (#[trigger] self.all_sorted_nodes@[j]).0 == s0[j].0 && self.all_sorted_nodes@[j].1 == s0[j].1,
                forall|j: int| 0 <= j < i ==> (#[trigger] self.all_sorted_nodes@[j]).2,
                forall|j: int| i <= j < n ==> (#[trigger] self.all_sorted_nodes@[j]).2 == s0[j].2,
                out@.len() == unpinged(s0.take(i as int)).len(),
                forall|k: int| 0 <= k < out@.len() ==> (#[trigger] out@[k]).0 == id_after(n1, k as nat)
                    && out@[k].1 == unpinged(s0.take(i as int))[k].1,
                self.active_lookups@.len() == a0.len() + out@.len(),
                self.active_lookups@.take(a0.len() as int) == a0,
                forall|k: int| 0 <= k < out@.len() ==> (#[trigger] self.active_lookups@[a0.len() + k]).0 == out@[k].0
                    && self.active_lookups@[a0.len() + k].1 == unpinged(s0.take(i as int))[k].0,
                self.id_generator.next() == id_after(n1, out@.len()),
            decreases n - i,
        {
            proof {
                assert(s0.take(i + 1).drop_last() =~= s0.take(i as int));
                assert(s0.take(i + 1).last() == s0[i as int]);
            }
            let (d, node, asked) = self.all_sorted_nodes[i];
            if !asked {
                let ghost k = out@.len();
                let ghost before = self.active_lookups@;
                let id = self.id_generator.next_id();
                self.active_lookups.push((id, d));
                self.all_sorted_nodes.set(i, (d, node, true));
                out.push((id, node));
                proof {
                    assert(self.active_lookups@.take(a0.len() as int) =~= before.take(a0.len() as int));
                    assert forall|kk: int| 0 <= kk < out@.len() implies (#[trigger] self.active_lookups@[a0.len() + kk]).0 == out@[kk].0
                        && self.active_lookups@[a0.len() + kk].1 == unpinged(s0.take(i + 1))[kk].0 by {
                        if kk < k {
                            assert(self.active_lookups@[a0.len() + kk] == before[a0.len() + kk]);
                        }
                    }
                }
            }
            i = i + 1;
        }
        proof {
            assert(s0.take(n as int) =~= s0);
            assert(n1 == id_after(old(self).id_generator.next(), 1));
            let t = self.all_sorted_nodes@;
            assert forall|a: int, b: int| 0 <= a < b < t.len() implies !lex_lt(#[trigger] t[b].0@, #[trigger] t[a].0@) by {
                assert(!lex_lt(s0[b].0@, s0[a].0@));
            }
            assert forall|a: int| 0 <= a < t.len() implies (#[trigger] t[a]).0@ == xor_seq(self.target_id@, t[a].1.id@) by {
                assert(s0[a].0@ == xor_seq(self.target_id@, s0[a].1.id@));
            }
            assert forall|kk: int| 0 <= kk < unpinged(s0).len() implies (#[trigger] out@[kk]).0 == id_after(old(self).id_generator.next(), (kk + 1) as nat) by {
                lemma_id_after_shift(old(self).id_generator.next(), kk as nat);
            }
            lemma_id_after_shift(old(self).id_generator.next(), out@.len());
        }
        (out, endgame_id)
    }
}

/// The nodes a response carried.
pub open spec fn info_nodes(info: LookupInfo) -> Seq<NodeHandle> {
    match info {
        LookupInfo::Nodes(n) => n@,
        LookupInfo::Values(_) => Seq::empty(),
        LookupInfo::Both(n, _) => n@,
    }
}

/// The peers a response carried.
pub open spec fn info_values(info: LookupInfo) -> Seq<(u32, u16)> {
    match info {
        LookupInfo::Nodes(_) => Seq::empty(),
        LookupInfo::Values(v) => v@,
        LookupInfo::Both(_, v) => v@,
    }
}

proof fn lemma_token_nodes_split(s: Seq<(Distance, NodeHandle, bool)>, tokens: Seq<(NodeHandle, Vec<u8>)>, i: int)
    requires
        0 <= i <= s.len(),
    ensures
        token_nodes(s, tokens) == token_nodes(s.take(i), tokens) + token_nodes(s.skip(i), tokens),
    decreases s.len(),
{
    if i == s.len() {
        assert(s.take(i) =~= s);
        assert(s.skip(i) =~= Seq::<(Distance, NodeHandle, bool)>::empty());
        assert(token_nodes(s, tokens) + Seq::<(NodeHandle, Seq<u8>)>::empty() =~= token_nodes(s, tokens));
    } else {
        let p = s.drop_last();
        lemma_token_nodes_split(p, tokens, i);
        assert(p.take(i) =~= s.take(i));
        assert(s.skip(i).drop_last() =~= p.skip(i));
        assert(s.skip(i).last() == s.last());
        assert(token_nodes(s, tokens) =~= token_nodes(s.take(i), tokens) + token_nodes(s.skip(i), tokens));
    }
}

/// The first waiting transaction with the id.
pub open spec fn first_active(s: Seq<(u64, Distance)>, id: u64) -> int {
    choose|i: int| 0 <= i < s.len() && s[i].0 == id && forall|j: int| 0 <= j < i ==> s[j].0 != id
}

/// The requests of a round over the closest of `fresh`: the nodes that
/// `ITERATIVE_PICK_NUM` empty slots hold after each of `fresh` in turn took
/// the first unused slot or the first one holding a farther node, asked in
/// slot order under ids handed out from `start` on.
pub open spec fn round_over(reqs: Seq<(u64, NodeHandle)>, start: u64, fresh: Seq<NodeHandle>, target: Seq<u8>) -> bool {
    exists|init: Seq<(NodeHandle, bool)>| #[trigger] unused_start(init)
        && round_requests(reqs, start, used_nodes(fold_closest(init, fresh, target)))
}

impl TableLookup {
    /// Takes in a `get_peers` response under the transaction id. A response
    /// under no waiting transaction changes nothing. Otherwise the
    /// transaction stops waiting and its timeout is to be cancelled unless
    /// in the endgame; a token is kept for announcing; peers are handed on;
    /// nodes not asked yet join the list and, outside the endgame, the
    /// closest of them are asked when they beat the transaction's distance;
    /// once nothing waits outside the endgame, the endgame starts.
    pub fn recv_response(&mut self, trans_id: u64, node: NodeHandle, token: Option<Vec<u8>>, info: LookupInfo) -> (r: LookupStep)
        requires
            old(self).wf(),
        ensures
            final(self).wf(),
            final(self).spec_target() == old(self).spec_target(),
            final(self).announcing() == old(self).announcing(),
            !is_active(old(self).active(), trans_id) ==> *final(self) == *old(self) && r.requests@.len() == 0
                && r.peers@.len() == 0 && !r.cancel_timeout && r.endgame_timeout is None,
            is_active(old(self).active(), trans_id) ==> {
                &&& r.cancel_timeout == !old(self).endgame()
                &&& match token {
                    Some(t) => token_of(final(self).tokens(), node) == Some(t@),
                    None => final(self).tokens() == old(self).tokens(),
                }
                &&& final(self).got_values() == (old(self).got_values() || info is Values)
                &&& r.peers@ == info_values(info)
                &&& old(self).endgame() ==> r.requests@.len() == 0 && r.endgame_timeout is None
                &&& forall|k: int| 0 <= k < unrequested(info_nodes(info), old(self).requested()).len() ==>
                    has_node(final(self).sorted_nodes(), #[trigger] unrequested(info_nodes(info), old(self).requested())[k])
            },
            is_active(old(self).active(), trans_id) && !old(self).endgame() ==> {
                let d = old(self).active()[first_active(old(self).active(), trans_id)].1@;
                let fresh = unrequested(info_nodes(info), old(self).requested());
                let beat = fresh.len() > 0 && lex_lt(closest_distance(d, fresh, old(self).spec_target()), d);
                &&& beat ==> !final(self).endgame() && r.endgame_timeout is None
                    && round_over(r.requests@, old(self).ids_next(), fresh, old(self).spec_target())
                &&& !beat && old(self).active().len() > 1 ==> !final(self).endgame()
                    && r.requests@.len() == 0 && r.endgame_timeout is None
                &&& !beat && old(self).active().len() == 1 ==> final(self).endgame()
                    && r.endgame_timeout == Some(old(self).ids_next())
                    && (forall|k: int| 0 <= k < r.requests@.len() ==>
                        (#[trigger] r.requests@[k]).0 == id_after(old(self).ids_next(), (k + 1) as nat))
                    && (!final(self).got_values() ==> forall|k: int| 0 <= k < final(self).sorted_nodes().len() ==>
                        (#[trigger] final(self).sorted_nodes()[k]).2)
            },
            requests_tracked(r.requests@, final(self).active()),
            r.status == (if final(self).searching() { LookupStatus::Searching } else { LookupStatus::Completed }),
    {
        let i = match self.position_active(trans_id) {
            None => {
                let status = self.current_lookup_status();
                return LookupStep { requests: Vec::new(), peers: Vec::new(), cancel_timeout: false, endgame_timeout: None, status };
            },
            Some(i) => i,
        };
        proof {
            let a = old(self).active_lookups@;
            assert(0 <= i < a.len() && a[i as int].0 == trans_id && forall|j: int| 0 <= j < i ==> a[j].0 != trans_id);
            let f = first_active(a, trans_id);
            assert(0 <= f < a.len() && a[f].0 == trans_id && forall|j: int| 0 <= j < f ==> a[j].0 != trans_id);
            if f < i {
                assert(a[f].0 != trans_id);
            } else if f > i {
                assert(a[i as int].0 != trans_id);
            }
            assert(f == i);
        }
        let (_, dist) = self.active_lookups.remove(i);
        let cancel = !self.in_endgame;
        match token {
            Some(t) => self.store_token(node, t),
            None => {},
        }
        let (values, nodes) = match info {
            LookupInfo::Nodes(n) => (Vec::new(), Some(n)),
            LookupInfo::Values(v) => {
                self.recv_values = true;
                (v, None)
            },
            LookupInfo::Both(n, v) => (v, Some(n)),
        };
        let (slots, next_dist) = match &nodes {
            Some(ns) => self.absorb_nodes(&dist, ns),
            None => (None, dist),
        };
        let mut requests: Vec<(u64, NodeHandle)> = Vec::new();
        let mut endgame_timeout: Option<u64> = None;
        if !self.in_endgame {
            match slots {
                Some(sl) => {
                    proof {
                        let fresh = unrequested(info_nodes(info), old(self).requested());
                        let init = choose|init: Seq<(NodeHandle, bool)>| #[trigger] unused_start(init)
                            && sl@ == fold_closest(init, fresh, old(self).spec_target());
                        assert(init.len() == 3);
                        lemma_fold_used(init, fresh, old(self).spec_target());
                        lemma_used_nonempty(sl@);
                    }
                    let mut reqs = self.start_request_round(&sl, Some(next_dist));
                    proof {
                        let a = self.active_lookups@;
                        assert forall|k: int| 0 <= k < reqs@.len() implies is_active(a, (#[trigger] reqs@[k]).0) by {
                            let j = a.len() - reqs@.len() + k;
                            assert(a[j].0 == reqs@[k].0);
                        }
                    }
                    requests.append(&mut reqs);
                },
                None => {},
            }
            if self.active_lookups.len() == 0 {
                let ghost a_len = self.active_lookups@.len();
                let ghost before = self.all_sorted_nodes@;
                let (mut reqs, id) = self.start_endgame_round();
                proof {
                    let a = self.active_lookups@;
                    assert forall|k: int| 0 <= k < reqs@.len() implies is_active(a, (#[trigger] reqs@[k]).0) by {
                        assert(a[a_len + k].0 == reqs@[k].0);
                    }
                    assert(requests@.len() == 0);
                    let fresh = unrequested(info_nodes(info), old(self).requested());
                    assert forall|k: int| 0 <= k < fresh.len() && has_node(before, #[trigger] fresh[k])
                        implies has_node(self.all_sorted_nodes@, fresh[k]) by {
                        let j = choose|j: int| 0 <= j < before.len() && same_handle((#[trigger] before[j]).1, fresh[k]);
                        assert(self.all_sorted_nodes@[j].1 == before[j].1);
                    }
                }
                requests.append(&mut reqs);
                endgame_timeout = Some(id);
            }
        }
        let status = self.current_lookup_status();
        LookupStep { requests, peers: values, cancel_timeout: cancel, endgame_timeout, status }
    }

    /// A transaction timed out: it stops waiting and, outside the endgame,
    /// the endgame starts once nothing waits. A timeout of no waiting
    /// transaction changes nothing.
    pub fn recv_timeout(&mut self, trans_id: u64) -> (r: LookupStep)
        requires
            old(self).wf(),
        ensures
            final(self).wf(),
            final(self).spec_target() == old(self).spec_target(),
            final(self).tokens() == old(self).tokens(),
            final(self).announcing() == old(self).announcing(),
            r.peers@.len() == 0,
            !r.cancel_timeout,
            !is_active(old(self).active(), trans_id) ==> *final(self) == *old(self) && r.requests@.len() == 0
                && r.endgame_timeout is None,
            is_active(old(self).active(), trans_id) && (old(self).endgame() || old(self).active().len() > 1) ==>
                r.requests@.len() == 0 && r.endgame_timeout is None
                && final(self).active().len() == old(self).active().len() - 1,
            is_active(old(self).active(), trans_id) && !old(self).endgame() && old(self).active().len() == 1 ==>
                final(self).endgame() && r.endgame_timeout == Some(old(self).ids_next()),
            requests_tracked(r.requests@, final(self).active()),
            r.status == (if final(self).searching() { LookupStatus::Searching } else { LookupStatus::Completed }),
    {
        let i = match self.position_active(trans_id) {
            None => {
                let status = self.current_lookup_status();
                return LookupStep { requests: Vec::new(), peers: Vec::new(), cancel_timeout: false, endgame_timeout: None, status };
            },
            Some(i) => i,
        };
        self.active_lookups.remove(i);
        let mut requests: Vec<(u64, NodeHandle)> = Vec::new();
        let mut endgame_timeout: Option<u64> = None;
        if !self.in_endgame && self.active_lookups.len() == 0 {
            let ghost a_len = self.active_lookups@.len();
            let (reqs, id) = self.start_endgame_round();
            proof {
                let a = self.active_lookups@;
                assert forall|k: int| 0 <= k < reqs@.len() implies is_active(a, (#[trigger] reqs@[k]).0) by {
                    assert(a[a_len + k].0 == reqs@[k].0);
                }
            }
            requests = reqs;
            endgame_timeout = Some(id);
        }
        let status = self.current_lookup_status();
        LookupStep { requests, peers: Vec::new(), cancel_timeout: false, endgame_timeout, status }
    }

    /// When the lookup is to announce and a port is given, announces to
    /// the closest nodes that gave a token, at most `ANNOUNCE_PICK_NUM`,
    /// each under a transaction of its own with the node's token.
    pub fn recv_finished(&mut self, announce_port: Option<u16>) -> (r: Vec<(u64, NodeHandle, Vec<u8>)>)
        requires
            old(self).wf(),
        ensures
            final(self).wf(),
            final(self).spec_target() == old(self).spec_target(),
            final(self).sorted_nodes() == old(self).sorted_nodes(),
            final(self).active() == old(self).active(),
            final(self).tokens() == old(self).tokens(),
            final(self).endgame() == old(self).endgame(),
            !(old(self).announcing() && announce_port is Some) ==> r@.len() == 0,
            old(self).announcing() && announce_port is Some ==> {
                let t = token_nodes(old(self).sorted_nodes(), old(self).tokens());
                let n = if t.len() < ANNOUNCE_PICK_NUM { t.len() as int } else { ANNOUNCE_PICK_NUM as int };
                &&& r@.len() == n
                &&& forall|k: int| 0 <= k < n ==> (#[trigger] r@[k]).0 == id_after(old(self).ids_next(), k as nat)
                    && r@[k].1 == t[k].0 && r@[k].2@ == t[k].1
            },
    {
        let mut out: Vec<(u64, NodeHandle, Vec<u8>)> = Vec::new();
        if !self.will_announce || announce_port.is_none() {
            return out;
        }
        let ghost s = self.all_sorted_nodes@;
        let ghost tk = self.announce_tokens@;
        let ghost n0 = self.id_generator.next();
        let mut i: usize = 0;
        assert(s.take(0) =~= Seq::<(Distance, NodeHandle, bool)>::empty());
        while i < self.all_sorted_nodes.len() && out.len() < ANNOUNCE_PICK_NUM
            invariant
                i <= s.len(),
                self.wf(),
                self.all_sorted_nodes@ == s,
                self.announce_tokens@ == tk,
                self.target_id == old(self).target_id,
                self.active_lookups == old(self).active_lookups,
                self.in_endgame == old(self).in_endgame,
                s == old(self).all_sorted_nodes@,
                tk == old(self).announce_tokens@,
                n0 == old(self).id_generator.next(),
                out@.len() <= ANNOUNCE_PICK_NUM,
                out@.len() == token_nodes(s.take(i as int), tk).len(),
                forall|k: int| 0 <= k < out@.len() ==> (#[trigger] out@[k]).0 == id_after(n0, k as nat)
                    && out@[k].1 == token_nodes(s.take(i as int), tk)[k].0
                    && out@[k].2@ == token_nodes(s.take(i as int), tk)[k].1,
                self.id_generator.next() == id_after(n0, out@.len()),
            decreases s.len() - i,
        {
            proof {
                assert(s.take(i + 1).drop_last() =~= s.take(i as int));
                assert(s.take(i + 1).last() == s[i as int]);
            }
            let node = self.all_sorted_nodes[i].1;
            match self.find_token(&node) {
                Some(t) => {
                    let id = self.id_generator.next_id();
                    out.push((id, node, t));
                },
                None => {},
            }
            i = i + 1;
        }
        proof {
            let t = token_nodes(s, tk);
            lemma_token_nodes_split(s, tk, i as int);
            if i == s.len() {
                assert(s.take(i as int) =~= s);
            }
            assert forall|k: int| 0 <= k < out@.len() implies token_nodes(s.take(i as int), tk)[k] == #[trigger] t[k] by {}
        }
        out
    }
}

proof fn lemma_id_after_one(start: u64)
    ensures
        id_after(start, 1) == (if start == u64::MAX { 0 } else { (start + 1) as u64 }),
{
    assert(id_after(start, 0) == start);
}

/// The id handed out `k` ids after the one after `start` is the one
/// `k + 1` ids after `start`.
proof fn lemma_id_after_shift(start: u64, k: nat)
    ensures
        id_after(id_after(start, 1), k) == id_after(start, k + 1),
    decreases k,
{
    if k > 0 {
        lemma_id_after_shift(start, (k - 1) as nat);
    }
}

/// After an insertion the distances still match the target.
proof fn lemma_insert_keeps(before: Seq<(Distance, NodeHandle, bool)>, after: Seq<(Distance, NodeHandle, bool)>, target: Seq<u8>, node: NodeHandle, p: int)
    requires
        distances_match(before, target),
        0 <= p <= before.len(),
        after.len() == before.len() + 1,
        after[p].0@ == xor_seq(target, node.id@),
        after[p].1 == node,
        after.take(p) == before.take(p),
        after.skip(p + 1) == before.skip(p),
    ensures
        distances_match(after, target),
{
    assert forall|i: int| 0 <= i < after.len() implies (#[trigger] after[i]).0@ == xor_seq(target, after[i].1.id@) by {
        if i < p {
            assert(after[i] == after.take(p)[i]);
            assert(before.take(p)[i] == before[i]);
        } else if i > p {
            assert(after[i] == after.skip(p + 1)[i - p - 1]);
            assert(before.skip(p)[i - p - 1] == before[i - 1]);
        }
    }
}

proof fn lemma_filter_len(nodes: Seq<NodeHandle>, requested: Seq<NodeHandle>)
    ensures
        unrequested(nodes, requested).len() <= nodes.len(),
{
    nodes.lemma_filter_len(|n: NodeHandle| !contains_handle(requested, n));
}

} // verus!
