use vstd::prelude::*;
use vstd::multiset::Multiset;

use crate::sha::{hash_eq, sha1_bytes, sha1_digest, ShaHash};
use crate::disk::block::{lemma_merge_fits, merge_piece_messages, same_piece, span_block, spec_merge, BlockMetadata};

verus! {

// ---------------------------------------------------------------------------
// Stable ordering of blocks by their offset.

/// Position at which `x` goes into `t` so that it lands after every trailing
/// block whose offset is not greater than its own (scanning from the end).
pub open spec fn insert_pos(t: Seq<BlockMetadata>, x: BlockMetadata) -> nat
    decreases t.len(),
{
    if t.len() == 0 {
        0
    } else if t.last().block_offset <= x.block_offset {
        t.len()
    } else {
        insert_pos(t.drop_last(), x)
    }
}

/// Blocks ordered by offset, blocks with equal offsets keeping their order
/// (a stable sort).
pub open spec fn sort_by_offset(s: Seq<BlockMetadata>) -> Seq<BlockMetadata>
    decreases s.len(),
{
    if s.len() == 0 {
        s
    } else {
        let t = sort_by_offset(s.drop_last());
        t.insert(insert_pos(t, s.last()) as int, s.last())
    }
}

/// Blocks are ordered by offset.
pub open spec fn offsets_sorted(s: Seq<BlockMetadata>) -> bool {
    forall|i: int, j: int| 0 <= i <= j < s.len() ==> s[i].block_offset <= s[j].block_offset
}

/// Merges blocks sorted by offset from the front: each block is merged
/// into the last merged block when the two belong to the same piece and
/// overlap or touch, and otherwise starts a block of its own.
pub open spec fn merge_front(s: Seq<BlockMetadata>) -> Seq<BlockMetadata>
    decreases s.len(),
{
    if s.len() == 0 {
        s
    } else {
        let r = merge_front(s.drop_last());
        if r.len() == 0 {
            seq![s.last()]
        } else {
            match spec_merge(r.last(), s.last()) {
                Some(m) => r.drop_last().push(m),
                None => r.push(s.last()),
            }
        }
    }
}

/// The farthest end of the blocks (0 for none).
pub open spec fn reach(s: Seq<BlockMetadata>) -> int
    decreases s.len(),
{
    if s.len() == 0 {
        0
    } else {
        let r = reach(s.drop_last());
        if r >= s.last().end() { r } else { s.last().end() }
    }
}

/// The ranges of the blocks, in order, leave no gap: each block starts at
/// or before the farthest end of the blocks before it.
pub open spec fn no_gap(s: Seq<BlockMetadata>) -> bool {
    forall|i: int| 0 < i < s.len() ==> (#[trigger] s[i]).block_offset <= reach(s.take(i))
}

/// Every block's end fits in a `u64`.
pub open spec fn all_fit(s: Seq<BlockMetadata>) -> bool {
    forall|i: int| 0 <= i < s.len() ==> (#[trigger] s[i]).fits()
}

/// Every block belongs to the piece `k`.
pub open spec fn all_in_piece(s: Seq<BlockMetadata>, k: u64) -> bool {
    forall|i: int| 0 <= i < s.len() ==> (#[trigger] s[i]).piece_index == k
}

proof fn lemma_insert_pos_bound(t: Seq<BlockMetadata>, x: BlockMetadata)
    ensures
        insert_pos(t, x) <= t.len(),
    decreases t.len(),
{
    if t.len() > 0 {
        lemma_insert_pos_bound(t.drop_last(), x);
    }
}

/// The stable sort keeps the length and the elements of its input.
pub proof fn lemma_sort_by_offset_permutes(s: Seq<BlockMetadata>)
    ensures
        sort_by_offset(s).len() == s.len(),
        sort_by_offset(s).to_multiset() =~= s.to_multiset(),
    decreases s.len(),
{
    if s.len() > 0 {
        let t = sort_by_offset(s.drop_last());
        lemma_sort_by_offset_permutes(s.drop_last());
        lemma_insert_pos_bound(t, s.last());
        let p = insert_pos(t, s.last()) as int;
        assert(t.insert(p, s.last()) =~= t.subrange(0, p) + seq![s.last()] + t.subrange(p, t.len() as int));
        assert(t =~= t.subrange(0, p) + t.subrange(p, t.len() as int));
        vstd::seq_lib::lemma_multiset_commutative(t.subrange(0, p), seq![s.last()]);
        vstd::seq_lib::lemma_multiset_commutative(t.subrange(0, p) + seq![s.last()], t.subrange(p, t.len() as int));
        vstd::seq_lib::lemma_multiset_commutative(t.subrange(0, p), t.subrange(p, t.len() as int));
        assert(s =~= s.drop_last().push(s.last()));
        broadcast use vstd::seq_lib::group_to_multiset_ensures;
        assert(s.to_multiset() =~= s.drop_last().to_multiset().insert(s.last()));
        assert(seq![s.last()].to_multiset() =~= Multiset::empty().insert(s.last())) by {
            assert(seq![s.last()] =~= Seq::<BlockMetadata>::empty().push(s.last()));
        }
    }
}

proof fn lemma_insert_pos_sorted(t: Seq<BlockMetadata>, x: BlockMetadata)
    requires
        offsets_sorted(t),
    ensures
        insert_pos(t, x) <= t.len(),
        forall|i: int| 0 <= i < insert_pos(t, x) ==> t[i].block_offset <= x.block_offset,
        forall|i: int| insert_pos(t, x) <= i < t.len() ==> t[i].block_offset > x.block_offset,
    decreases t.len(),
{
    if t.len() > 0 {
        let n = t.len() - 1;
        if t.last().block_offset > x.block_offset {
            let u = t.drop_last();
            assert(offsets_sorted(u)) by {
                assert forall|i: int, j: int| 0 <= i <= j < u.len() implies u[i].block_offset <= u[j].block_offset by {
                    assert(u[i] == t[i] && u[j] == t[j]);
                }
            }
            lemma_insert_pos_sorted(u, x);
            assert forall|i: int| 0 <= i < insert_pos(t, x) implies t[i].block_offset <= x.block_offset by {
                assert(t[i] == u[i]);
            }
            assert forall|i: int| insert_pos(t, x) <= i < t.len() implies t[i].block_offset > x.block_offset by {
                if i < n {
                    assert(t[i] == u[i]);
                }
            }
        } else {
            assert forall|i: int| 0 <= i < t.len() implies t[i].block_offset <= x.block_offset by {
                assert(t[i].block_offset <= t[n].block_offset);
            }
        }
    }
}

/// The stable sort orders its output by offset.
pub proof fn lemma_sort_by_offset_sorted(s: Seq<BlockMetadata>)
    ensures
        offsets_sorted(sort_by_offset(s)),
    decreases s.len(),
{
    if s.len() > 0 {
        let t = sort_by_offset(s.drop_last());
        lemma_sort_by_offset_sorted(s.drop_last());
        lemma_insert_pos_sorted(t, s.last());
    }
}

/// Sort the blocks by offset, stably.
pub fn sort_blocks_by_offset(v: &Vec<BlockMetadata>) -> (r: Vec<BlockMetadata>)
    ensures
        r@ == sort_by_offset(v@),
{
    let mut r: Vec<BlockMetadata> = Vec::new();
    let n = v.len();
    let mut i: usize = 0;
    assert(v@.take(0) =~= Seq::<BlockMetadata>::empty());
    while i < n
        invariant
            n == v.len(),
            i <= n,
            r@ == sort_by_offset(v@.take(i as int)),
        decreases n - i,
    {
        let x = v[i];
        let mut p = r.len();
        proof {
            assert(r@.take(p as int) =~= r@);
        }
        while p > 0 && r[p - 1].block_offset > x.block_offset
            invariant
                p <= r.len(),
                insert_pos(r@, x) == insert_pos(r@.take(p as int), x),
            decreases p,
        {
            proof {
                assert(r@.take(p as int).drop_last() =~= r@.take(p - 1));
            }
            p = p - 1;
        }
        proof {
            assert(insert_pos(r@, x) == p);
            assert(v@.take(i + 1).drop_last() =~= v@.take(i as int));
        }
        r.insert(p, x);
        i = i + 1;
    }
    assert(v@.take(n as int) =~= v@);
    r
}

/// Merges the blocks of a list sorted by offset from the front.
pub fn merge_sorted_blocks(messages: &mut Vec<BlockMetadata>)
    requires
        all_fit(old(messages)@),
    ensures
        final(messages)@ == merge_front(old(messages)@),
        all_fit(final(messages)@),
        forall|k: u64| all_in_piece(old(messages)@, k) ==> all_in_piece(final(messages)@, k),
{
    let ghost s = messages@;
    let mut out: Vec<BlockMetadata> = Vec::new();
    let mut i: usize = 0;
    assert(s.take(0) =~= Seq::<BlockMetadata>::empty());
    while i < messages.len()
        invariant
            i <= s.len(),
            messages@ == s,
            s == old(messages)@,
            all_fit(s),
            out@ == merge_front(s.take(i as int)),
            all_fit(out@),
            forall|k: u64| all_in_piece(s, k) ==> all_in_piece(out@, k),
        decreases s.len() - i,
    {
        let x = messages[i];
        proof {
            assert(s.take(i + 1).drop_last() =~= s.take(i as int));
            assert(s.take(i + 1).last() == x);
        }
        let ghost o = out@;
        match out.pop() {
            None => {
                out.push(x);
                proof {
                    assert(out@ =~= seq![x]);
                    assert forall|k: u64| all_in_piece(s, k) implies all_in_piece(out@, k) by {
                        assert(s[i as int] == x);
                    }
                }
            },
            Some(last) => {
                assert(last == o.last());
                match merge_piece_messages(&last, &x) {
                    Some(m) => {
                        proof {
                            lemma_merge_fits(last, x);
                        }
                        out.push(m);
                        proof {
                            assert(out@ =~= o.drop_last().push(m));
                            assert forall|k: u64| all_in_piece(s, k) implies all_in_piece(out@, k) by {
                                assert(all_in_piece(o, k));
                                assert(o[o.len() - 1] == last);
                            }
                        }
                    },
                    None => {
                        out.push(last);
                        out.push(x);
                        proof {
                            assert(out@ =~= o.push(x));
                            assert forall|k: u64| all_in_piece(s, k) implies all_in_piece(out@, k) by {
                                assert(all_in_piece(o, k));
                                assert(s[i as int] == x);
                            }
                        }
                    },
                }
            },
        }
        i = i + 1;
    }
    assert(s.take(s.len() as int) =~= s);
    *messages = out;
}

/// Blocks of one torrent's piece, sorted by offset, whose ranges leave no
/// gap merge into one block from the first offset to the farthest end (as
/// long as that span's length fits a `usize`).
pub proof fn lemma_merge_front_single(s: Seq<BlockMetadata>)
    requires
        s.len() > 0,
        offsets_sorted(s),
        all_fit(s),
        forall|i: int| 0 <= i < s.len() ==> same_piece(s[0], #[trigger] s[i]),
        no_gap(s),
        reach(s) - s[0].block_offset <= usize::MAX,
    ensures
        merge_front(s) == seq![span_block(s[0], s[0].block_offset, reach(s))],
    decreases s.len(),
{
    let t = s.drop_last();
    if s.len() == 1 {
        assert(t.len() == 0);
        assert(merge_front(t) =~= t);
        assert(reach(t) == 0);
        assert(s.last() == s[0]);
        assert(span_block(s[0], s[0].block_offset, reach(s)) == s[0]);
    } else {
        lemma_reach_bounds(s);
        assert forall|i: int| 0 < i < t.len() implies (#[trigger] t[i]).block_offset <= reach(t.take(i)) by {
            assert(t.take(i) =~= s.take(i));
            assert(t[i] == s[i]);
        }
        assert(t[0] == s[0]);
        lemma_merge_front_single(t);
        let a = span_block(s[0], s[0].block_offset, reach(t));
        let b = s.last();
        assert(merge_front(t).last() == a);
        assert(s.take(s.len() - 1) =~= t);
        assert(b.block_offset <= reach(t));
        assert(same_piece(s[0], b));
        assert(a.end() == reach(t));
        assert(b.block_offset >= a.block_offset);
        assert(merge_front(t).drop_last() =~= Seq::<BlockMetadata>::empty());
        assert(merge_front(s) =~= seq![span_block(s[0], s[0].block_offset, reach(s))]);
    }
}

/// The farthest end is at least the first block's end and at most every
/// later bound, and never below the first offset.
proof fn lemma_reach_bounds(s: Seq<BlockMetadata>)
    requires
        s.len() > 0,
        offsets_sorted(s),
    ensures
        reach(s) >= s[0].end(),
        reach(s.drop_last()) <= reach(s),
        forall|i: int| 0 <= i < s.len() ==> reach(s) >= (#[trigger] s[i]).end(),
    decreases s.len(),
{
    if s.len() > 1 {
        let t = s.drop_last();
        assert forall|i: int, j: int| 0 <= i <= j < t.len() implies t[i].block_offset <= t[j].block_offset by {
            assert(t[i] == s[i] && t[j] == s[j]);
        }
        lemma_reach_bounds(t);
        assert forall|i: int| 0 <= i < s.len() implies reach(s) >= (#[trigger] s[i]).end() by {
            if i < t.len() {
                assert(t[i] == s[i]);
            }
        }
    } else {
        assert(reach(s.drop_last()) == 0);
    }
}

proof fn lemma_sort_all_fit(s: Seq<BlockMetadata>)
    ensures
        all_fit(s) ==> all_fit(sort_by_offset(s)),
        forall|k: u64| all_in_piece(s, k) ==> all_in_piece(sort_by_offset(s), k),
    decreases s.len(),
{
    if s.len() > 0 {
        let d = s.drop_last();
        let t = sort_by_offset(d);
        assert(forall|i: int| 0 <= i < d.len() ==> d[i] == s[i]);
        lemma_sort_all_fit(d);
        lemma_insert_pos_bound(t, s.last());
        let p = insert_pos(t, s.last()) as int;
        let u = t.insert(p, s.last());
        if all_fit(s) {
            assert(all_fit(d));
            assert forall|i: int| 0 <= i < u.len() implies (#[trigger] u[i]).fits() by {
                if i < p {
                    assert(u[i] == t[i]);
                } else if i > p {
                    assert(u[i] == t[i - 1]);
                }
            }
        }
        assert forall|k: u64| all_in_piece(s, k) implies all_in_piece(u, k) by {
            assert(all_in_piece(d, k));
            assert forall|i: int| 0 <= i < u.len() implies (#[trigger] u[i]).piece_index == k by {
                if i < p {
                    assert(u[i] == t[i]);
                } else if i > p {
                    assert(u[i] == t[i - 1]);
                }
            }
        }
    }
}

// ---------------------------------------------------------------------------
// Piece states.

/// Outcome of checking a whole piece against its expected hash.
#[derive(Clone, Copy, Debug, PartialEq, Eq, Hash, Structural)]
pub enum PieceState {
    /// Piece was discovered as good.
    Good(u64),
    /// Piece was discovered as bad.
    Bad(u64),
}

impl PieceState {
    pub open spec fn index(self) -> u64 {
        match self {
            PieceState::Good(i) => i,
            PieceState::Bad(i) => i,
        }
    }

    /// Index of the piece this state is about.
    pub fn get_index(&self) -> (r: u64)
        ensures
            r == self.index(),
    {
        match self {
            PieceState::Good(index) => *index,
            PieceState::Bad(index) => *index,
        }
    }
}

/// Indices of the states whose flag is set, in order.
pub open spec fn selected_indices(states: Seq<PieceState>, flags: Seq<bool>) -> Seq<u64>
    decreases states.len(),
{
    if states.len() == 0 || flags.len() == 0 {
        Seq::empty()
    } else {
        let rest = selected_indices(states.drop_last(), flags.drop_last());
        if flags.last() {
            rest.push(states.last().index())
        } else {
            rest
        }
    }
}

/// Blocks received for one piece.
pub struct PendingPiece {
    pub piece_index: u64,
    pub blocks: Vec<BlockMetadata>,
}

/// The entries have pairwise distinct piece indices.
pub open spec fn unique_keys(s: Seq<PendingPiece>) -> bool {
    forall|i: int, j: int| 0 <= i < s.len() && 0 <= j < s.len() && i != j ==> s[i].piece_index != s[j].piece_index
}

/// Some entry is for the given piece.
pub open spec fn has_key(s: Seq<PendingPiece>, k: u64) -> bool {
    exists|i: int| 0 <= i < s.len() && s[i].piece_index == k
}

/// The entries as a map from piece index to blocks.
pub open spec fn entries_map(s: Seq<PendingPiece>) -> Map<u64, Seq<BlockMetadata>> {
    Map::new(
        |k: u64| has_key(s, k),
        |k: u64| s[choose|i: int| 0 <= i < s.len() && s[i].piece_index == k].blocks@,
    )
}

proof fn lemma_entries_map_at(s: Seq<PendingPiece>, i: int)
    requires
        unique_keys(s),
        0 <= i < s.len(),
    ensures
        entries_map(s).contains_key(s[i].piece_index),
        entries_map(s)[s[i].piece_index] == s[i].blocks@,
{
    let k = s[i].piece_index;
    assert(has_key(s, k));
    let j = choose|j: int| 0 <= j < s.len() && s[j].piece_index == k;
    assert(j == i);
}

/// Stores state for the piece checker between invocations.
pub struct PieceStateChecker {
    new_states: Vec<PieceState>,
    old_states: Vec<PieceState>,
    pending_blocks: Vec<PendingPiece>,
    total_blocks: usize,
    last_block_size: usize,
}

impl PieceStateChecker {
    /// States found since the last diff was taken.
    pub closed spec fn new_states(&self) -> Seq<PieceState> {
        self.new_states@
    }

    /// States already reported by a diff.
    pub closed spec fn old_states(&self) -> Set<PieceState> {
        self.old_states@.to_set()
    }

    /// Blocks waiting to be checked, by piece index.
    pub closed spec fn pending(&self) -> Map<u64, Seq<BlockMetadata>> {
        entries_map(self.pending_blocks@)
    }

    pub closed spec fn total_blocks(&self) -> usize {
        self.total_blocks
    }

    pub closed spec fn last_block_size(&self) -> usize {
        self.last_block_size
    }

    /// Well-formedness: one entry per piece, and every pending block's end
    /// fits in a `u64`.
    pub closed spec fn wf(&self) -> bool {
        &&& unique_keys(self.pending_blocks@)
        &&& forall|i: int| 0 <= i < self.pending_blocks@.len() ==> all_fit(#[trigger] self.pending_blocks@[i].blocks@)
        &&& forall|i: int| 0 <= i < self.pending_blocks@.len() ==> all_in_piece(#[trigger] self.pending_blocks@[i].blocks@, self.pending_blocks@[i].piece_index)
    }

    /// Every pending block's end fits in a `u64`.
    pub open spec fn pending_fit(&self) -> bool {
        forall|k: u64| self.pending().contains_key(k) ==> all_fit(#[trigger] self.pending()[k])
    }

    /// Create a new checker state.
    pub fn new(total_blocks: usize, last_block_size: usize) -> (r: PieceStateChecker)
        ensures
            r.wf(),
            r.new_states() == Seq::<PieceState>::empty(),
            r.old_states() == Set::<PieceState>::empty(),
            r.pending() == Map::<u64, Seq<BlockMetadata>>::empty(),
            r.total_blocks() == total_blocks,
            r.last_block_size() == last_block_size,
    {
        let r = PieceStateChecker {
            new_states: Vec::new(),
            old_states: Vec::new(),
            pending_blocks: Vec::new(),
            total_blocks,
            last_block_size,
        };
        assert(r.old_states@.to_set() =~= Set::<PieceState>::empty());
        assert(entries_map(r.pending_blocks@) =~= Map::<u64, Seq<BlockMetadata>>::empty());
        r
    }

    /// The pending blocks all fit.
    pub proof fn lemma_wf_pending_fit(&self)
        requires
            self.wf(),
        ensures
            self.pending_fit(),
    {
        assert forall|k: u64| self.pending().contains_key(k) implies all_fit(#[trigger] self.pending()[k]) by {
            let i = choose|i: int| 0 <= i < self.pending_blocks@.len() && self.pending_blocks@[i].piece_index == k;
            lemma_entries_map_at(self.pending_blocks@, i);
        }
    }

    fn find_entry(&self, piece_index: u64) -> (r: Option<usize>)
        requires
            unique_keys(self.pending_blocks@),
        ensures
            r is None ==> !has_key(self.pending_blocks@, piece_index),
            r matches Some(i) ==> i < self.pending_blocks@.len() && self.pending_blocks@[i as int].piece_index == piece_index,
    {
        let mut i: usize = 0;
        while i < self.pending_blocks.len()
            invariant
                i <= self.pending_blocks@.len(),
                forall|j: int| 0 <= j < i ==> self.pending_blocks@[j].piece_index != piece_index,
            decreases self.pending_blocks@.len() - i,
        {
            if self.pending_blocks[i].piece_index == piece_index {
                return Some(i);
            }
            i = i + 1;
        }
        None
    }

    /// Add a pending piece block to the current pending blocks.
    pub fn add_pending_block(&mut self, msg: BlockMetadata)
        requires
            old(self).wf(),
            msg.fits(),
        ensures
            final(self).wf(),
            final(self).pending() == old(self).pending().insert(
                msg.piece_index,
                (if old(self).pending().contains_key(msg.piece_index) {
                    old(self).pending()[msg.piece_index]
                } else {
                    Seq::<BlockMetadata>::empty()
                }).push(msg),
            ),
            final(self).new_states() == old(self).new_states(),
            final(self).old_states() == old(self).old_states(),
            final(self).total_blocks() == old(self).total_blocks(),
            final(self).last_block_size() == old(self).last_block_size(),
    {
        let ghost old_entries = self.pending_blocks@;
        let k = msg.piece_index;
        match self.find_entry(k) {
            Some(i) => {
                let mut entry = self.pending_blocks.remove(i);
                entry.blocks.push(msg);
                self.pending_blocks.insert(i, entry);
                proof {
                    let s = self.pending_blocks@;
                    assert forall|a: int| 0 <= a < s.len() && a != i implies s[a] == old_entries[a] by {}
                    assert(unique_keys(s));
                    assert forall|a: int| 0 <= a < s.len() implies all_fit(#[trigger] s[a].blocks@) by {
                        if a == i {
                            assert(all_fit(old_entries[a].blocks@));
                            assert forall|b: int| 0 <= b < s[a].blocks@.len() implies (#[trigger] s[a].blocks@[b]).fits() by {
                                if b < old_entries[a].blocks@.len() {
                                    assert(s[a].blocks@[b] == old_entries[a].blocks@[b]);
                                }
                            }
                        }
                    }
                    assert forall|a: int| 0 <= a < s.len() implies all_in_piece(#[trigger] s[a].blocks@, s[a].piece_index) by {
                        if a == i {
                            assert(all_in_piece(old_entries[a].blocks@, old_entries[a].piece_index));
                            assert forall|b: int| 0 <= b < s[a].blocks@.len() implies (#[trigger] s[a].blocks@[b]).piece_index == s[a].piece_index by {
                                if b < old_entries[a].blocks@.len() {
                                    assert(s[a].blocks@[b] == old_entries[a].blocks@[b]);
                                }
                            }
                        }
                    }
                    lemma_entries_map_at(old_entries, i as int);
                    let m_new = entries_map(s);
                    let m_old = entries_map(old_entries);
                    let expected = m_old.insert(k, m_old[k].push(msg));
                    assert forall|key: u64| m_new.contains_key(key) <==> expected.contains_key(key) by {
                        if has_key(s, key) {
                            let a = choose|a: int| 0 <= a < s.len() && s[a].piece_index == key;
                            assert(old_entries[a].piece_index == key);
                        }
                        if has_key(old_entries, key) {
                            let a = choose|a: int| 0 <= a < old_entries.len() && old_entries[a].piece_index == key;
                            assert(s[a].piece_index == key);
                        }
                    }
                    assert forall|key: u64| #[trigger] m_new.contains_key(key) implies m_new[key] == expected[key] by {
                        let a = choose|a: int| 0 <= a < s.len() && s[a].piece_index == key;
                        lemma_entries_map_at(s, a);
                        if a != i {
                            lemma_entries_map_at(old_entries, a);
                        }
                    }
                    assert(m_new =~= expected);
                }
            }
            None => {
                let mut blocks = Vec::new();
                blocks.push(msg);
                self.pending_blocks.push(PendingPiece { piece_index: k, blocks });
                proof {
                    let s = self.pending_blocks@;
                    let n = old_entries.len() as int;
                    assert forall|a: int| 0 <= a < n implies s[a] == old_entries[a] by {}
                    assert(unique_keys(s));
                    assert forall|a: int| 0 <= a < s.len() implies all_fit(#[trigger] s[a].blocks@) by {
                        if a < n {
                            assert(s[a] == old_entries[a]);
                        }
                    }
                    assert forall|a: int| 0 <= a < s.len() implies all_in_piece(#[trigger] s[a].blocks@, s[a].piece_index) by {
                        if a < n {
                            assert(s[a] == old_entries[a]);
                        }
                    }
                    let m_new = entries_map(s);
                    let m_old = entries_map(old_entries);
                    let expected = m_old.insert(k, Seq::<BlockMetadata>::empty().push(msg));
                    lemma_entries_map_at(s, n);
                    assert(s[n].blocks@ =~= Seq::<BlockMetadata>::empty().push(msg));
                    assert forall|key: u64| m_new.contains_key(key) <==> expected.contains_key(key) by {
                        if has_key(s, key) && key != k {
                            let a = choose|a: int| 0 <= a < s.len() && s[a].piece_index == key;
                            assert(a < n);
                            assert(old_entries[a].piece_index == key);
                        }
                        if has_key(old_entries, key) {
                            let a = choose|a: int| 0 <= a < old_entries.len() && old_entries[a].piece_index == key;
                            assert(s[a].piece_index == key);
                        }
                    }
                    assert forall|key: u64| #[trigger] m_new.contains_key(key) implies m_new[key] == expected[key] by {
                        let a = choose|a: int| 0 <= a < s.len() && s[a].piece_index == key;
                        lemma_entries_map_at(s, a);
                        if a != n {
                            lemma_entries_map_at(old_entries, a);
                        }
                    }
                    assert(m_new =~= expected);
                }
            }
        }
    }

    /// Merges the pending blocks of every piece into as few messages as
    /// possible: sorts them by offset and merges each into the one before
    /// it when their ranges overlap or touch, so that blocks leaving no gap
    /// become a single message (see `lemma_merge_front_single`).
    pub fn merge_pieces(&mut self)
        requires
            old(self).wf(),
        ensures
            final(self).wf(),
            final(self).pending() == Map::new(
                |k: u64| old(self).pending().contains_key(k),
                |k: u64| merge_front(sort_by_offset(old(self).pending()[k])),
            ),
            final(self).new_states() == old(self).new_states(),
            final(self).old_states() == old(self).old_states(),
            final(self).total_blocks() == old(self).total_blocks(),
            final(self).last_block_size() == old(self).last_block_size(),
    {
        let ghost old_entries = self.pending_blocks@;
        let n = self.pending_blocks.len();
        let mut i: usize = 0;
        while i < n
            invariant
                n == self.pending_blocks@.len(),
                n == old_entries.len(),
                i <= n,
                unique_keys(old_entries),
                forall|a: int| 0 <= a < n ==> all_fit(#[trigger] old_entries[a].blocks@),
                forall|a: int| 0 <= a < n ==> (#[trigger] self.pending_blocks@[a]).piece_index == old_entries[a].piece_index,
                forall|a: int| 0 <= a < i ==> (#[trigger] self.pending_blocks@[a]).blocks@ == merge_front(sort_by_offset(old_entries[a].blocks@)),
                forall|a: int| i <= a < n ==> (#[trigger] self.pending_blocks@[a]).blocks@ == old_entries[a].blocks@,
                forall|a: int| 0 <= a < n ==> all_fit(#[trigger] self.pending_blocks@[a].blocks@),
                forall|a: int| 0 <= a < n ==> all_in_piece(#[trigger] old_entries[a].blocks@, old_entries[a].piece_index),
                forall|a: int| 0 <= a < n ==> all_in_piece(#[trigger] self.pending_blocks@[a].blocks@, self.pending_blocks@[a].piece_index),
                self.new_states@ == old(self).new_states@,
                self.old_states@ == old(self).old_states@,
                self.total_blocks == old(self).total_blocks,
                self.last_block_size == old(self).last_block_size,
            decreases n - i,
        {
            let ghost before = self.pending_blocks@;
            let entry = self.pending_blocks.remove(i);
            proof {
                lemma_sort_all_fit(entry.blocks@);
            }
            let mut sorted = sort_blocks_by_offset(&entry.blocks);
            merge_sorted_blocks(&mut sorted);
            self.pending_blocks.insert(i, PendingPiece { piece_index: entry.piece_index, blocks: sorted });
            proof {
                assert forall|a: int| 0 <= a < n && a != i implies self.pending_blocks@[a] == before[a] by {}
            }
            i = i + 1;
        }
        proof {
            let s = self.pending_blocks@;
            assert(unique_keys(s));
            let m_new = entries_map(s);
            let m_old = entries_map(old_entries);
            let expected = Map::new(
                |k: u64| m_old.contains_key(k),
                |k: u64| merge_front(sort_by_offset(m_old[k])),
            );
            assert forall|key: u64| m_new.contains_key(key) <==> expected.contains_key(key) by {
                if has_key(s, key) {
                    let a = choose|a: int| 0 <= a < s.len() && s[a].piece_index == key;
                    assert(old_entries[a].piece_index == key);
                }
                if has_key(old_entries, key) {
                    let a = choose|a: int| 0 <= a < old_entries.len() && old_entries[a].piece_index == key;
                    assert(s[a].piece_index == key);
                }
            }
            assert forall|key: u64| #[trigger] m_new.contains_key(key) implies m_new[key] == expected[key] by {
                let a = choose|a: int| 0 <= a < s.len() && s[a].piece_index == key;
                lemma_entries_map_at(s, a);
                lemma_entries_map_at(old_entries, a);
            }
            assert(m_new =~= expected);
        }
    }

    fn insert_old_state(&mut self, state: PieceState)
        ensures
            final(self).old_states@.to_set() == old(self).old_states@.to_set().insert(state),
            final(self).new_states@ == old(self).new_states@,
            final(self).pending_blocks@ == old(self).pending_blocks@,
            final(self).total_blocks == old(self).total_blocks,
            final(self).last_block_size == old(self).last_block_size,
    {
        let mut i: usize = 0;
        while i < self.old_states.len()
            invariant
                i <= self.old_states@.len(),
                forall|j: int| 0 <= j < i ==> self.old_states@[j] != state,
            decreases self.old_states@.len() - i,
        {
            if self.old_states[i] == state {
                proof {
                    assert(self.old_states@.to_set().contains(state));
                    assert(self.old_states@.to_set().insert(state) =~= self.old_states@.to_set());
                }
                return;
            }
            i = i + 1;
        }
        let ghost before = self.old_states@;
        self.old_states.push(state);
        proof {
            assert(self.old_states@.to_set() =~= before.to_set().insert(state)) by {
                assert forall|x: PieceState| self.old_states@.to_set().contains(x) <==> before.to_set().insert(state).contains(x) by {
                    if self.old_states@.contains(x) && x != state {
                        let j = choose|j: int| 0 <= j < self.old_states@.len() && self.old_states@[j] == x;
                        assert(before[j] == x);
                    }
                    if before.contains(x) {
                        let j = choose|j: int| 0 <= j < before.len() && before[j] == x;
                        assert(self.old_states@[j] == x);
                    }
                    if x == state {
                        assert(self.old_states@[before.len() as int] == x);
                    }
                }
            }
        }
    }

    /// Runs the callback against each new state, in order, collecting the
    /// indices of the states it accepts; every new state then becomes an old
    /// state.
    pub fn run_with_diff<F>(&mut self, callback: F) -> (r: Vec<u64>)
        where
            F: Fn(PieceState) -> bool,
        requires
            old(self).wf(),
            forall|st: PieceState| callback.requires((st,)),
        ensures
            final(self).wf(),
            exists|flags: Seq<bool>|
                {
                    &&& flags.len() == old(self).new_states().len()
                    &&& forall|i: int| 0 <= i < flags.len() ==> callback.ensures((old(self).new_states()[i],), #[trigger] flags[i])
                    &&& r@ == selected_indices(old(self).new_states(), flags)
                },
            final(self).new_states() == Seq::<PieceState>::empty(),
            final(self).old_states() == old(self).old_states().union(old(self).new_states().to_set()),
            final(self).pending() == old(self).pending(),
            final(self).total_blocks() == old(self).total_blocks(),
            final(self).last_block_size() == old(self).last_block_size(),
    {
        let ghost states = self.new_states@;
        let ghost old_set = self.old_states@.to_set();
        let ghost mut flags: Seq<bool> = Seq::empty();
        let mut result: Vec<u64> = Vec::new();
        let n = self.new_states.len();
        let mut i: usize = 0;
        while i < n
            invariant
                n == states.len(),
                i <= n,
                self.new_states@ == states,
                flags.len() == i,
                forall|j: int| 0 <= j < i ==> callback.ensures((states[j],), #[trigger] flags[j]),
                forall|st: PieceState| callback.requires((st,)),
                result@ == selected_indices(states.take(i as int), flags),
                self.old_states@.to_set() == old_set.union(states.take(i as int).to_set()),
                self.pending_blocks@ == old(self).pending_blocks@,
                self.total_blocks == old(self).total_blocks,
                self.last_block_size == old(self).last_block_size,
            decreases n - i,
        {
            let piece_state = self.new_states[i];
            let keep = callback(piece_state);
            if keep {
                result.push(piece_state.get_index());
            }
            self.insert_old_state(piece_state);
            proof {
                let ghost prev_flags = flags;
                flags = flags.push(keep);
                assert(states.take(i + 1).drop_last() =~= states.take(i as int));
                assert(flags.drop_last() =~= prev_flags);
                let t1 = states.take(i + 1);
                let t0 = states.take(i as int);
                assert(t1.to_set() =~= t0.to_set().insert(piece_state)) by {
                    assert forall|x: PieceState| t1.to_set().contains(x) <==> t0.to_set().insert(piece_state).contains(x) by {
                        if t1.contains(x) {
                            let j = choose|j: int| 0 <= j < t1.len() && t1[j] == x;
                            if j < i {
                                assert(t0[j] == x);
                            }
                        }
                        if t0.contains(x) {
                            let j = choose|j: int| 0 <= j < t0.len() && t0[j] == x;
                            assert(t1[j] == x);
                        }
                        if x == piece_state {
                            assert(t1[i as int] == x);
                        }
                    }
                }
                assert(self.old_states@.to_set() =~= old_set.union(states.take(i + 1).to_set()));
            }
            i = i + 1;
        }
        self.new_states.clear();
        proof {
            assert(states.take(n as int) =~= states);
            assert(old(self).new_states() == states);
            assert(result@ == selected_indices(states, flags));
            assert(forall|j: int| 0 <= j < flags.len() ==> callback.ensures((states[j],), #[trigger] flags[j]));
        }
        result
    }

    /// Merges the pending blocks and returns, for every piece whose blocks
    /// merged into one block spanning a whole piece (or the whole last piece)
    /// and that is not already known as good, that block: these are the
    /// pieces to read back and hash.
    pub fn begin_whole_piece_check(&mut self, piece_length: usize) -> (r: Vec<BlockMetadata>)
        requires
            old(self).wf(),
            old(self).total_blocks() > 0 || forall|k: u64| #[trigger] old(self).pending().contains_key(k) ==> old(self).pending()[k].len() == 0,
        ensures
            final(self).wf(),
            final(self).pending() == Map::new(
                |k: u64| old(self).pending().contains_key(k),
                |k: u64| merge_front(sort_by_offset(old(self).pending()[k])),
            ),
            forall|b: BlockMetadata| r@.contains(b) <==> exists|k: u64| #[trigger] final(self).pending().contains_key(k) && final(self).ready_for_check(k, piece_length) && b == final(self).pending()[k][0],
            final(self).new_states() == old(self).new_states(),
            final(self).old_states() == old(self).old_states(),
            final(self).total_blocks() == old(self).total_blocks(),
            final(self).last_block_size() == old(self).last_block_size(),
    {
        self.merge_pieces();
        proof {
            if self.total_blocks == 0 {
                assert forall|a: int| 0 <= a < self.pending_blocks@.len() implies (#[trigger] self.pending_blocks@[a]).blocks@.len() == 0 by {
                    let k = self.pending_blocks@[a].piece_index;
                    lemma_entries_map_at(self.pending_blocks@, a);
                    assert(old(self).pending().contains_key(k));
                    assert(old(self).pending()[k].len() == 0);
                    assert(sort_by_offset(old(self).pending()[k]) =~= old(self).pending()[k]);
                }
            }
        }
        let mut result: Vec<BlockMetadata> = Vec::new();
        let n = self.pending_blocks.len();
        let mut i: usize = 0;
        while i < n
            invariant
                n == self.pending_blocks@.len(),
                i <= n,
                self.wf(),
                self.total_blocks > 0 || forall|a: int| 0 <= a < n ==> (#[trigger] self.pending_blocks@[a]).blocks@.len() == 0,
                forall|b: BlockMetadata| result@.contains(b) <==> exists|a: int| 0 <= a < i && self.entry_ready(a, piece_length) && b == #[trigger] self.pending_blocks@[a].blocks@[0],
            decreases n - i,
        {
            let ghost prev = result@;
            let entry = &self.pending_blocks[i];
            if entry.blocks.len() > 0 && piece_is_complete(self.total_blocks, self.last_block_size, piece_length, entry.blocks.as_slice())
                && !self.has_old_state(PieceState::Good(entry.blocks[0].piece_index)) {
                result.push(entry.blocks[0]);
            }
            proof {
                assert forall|b: BlockMetadata| result@.contains(b) <==> exists|a: int| 0 <= a < i + 1 && self.entry_ready(a, piece_length) && b == #[trigger] self.pending_blocks@[a].blocks@[0] by {
                    if result@.contains(b) && !prev.contains(b) {
                        assert(b == self.pending_blocks@[i as int].blocks@[0]);
                    }
                    if prev.contains(b) {
                        let j = choose|j: int| 0 <= j < prev.len() && prev[j] == b;
                        assert(result@[j] == b);
                    }
                    if exists|a: int| 0 <= a < i + 1 && self.entry_ready(a, piece_length) && b == #[trigger] self.pending_blocks@[a].blocks@[0] {
                        let a = choose|a: int| 0 <= a < i + 1 && self.entry_ready(a, piece_length) && b == #[trigger] self.pending_blocks@[a].blocks@[0];
                        if a == i {
                            assert(result@[result@.len() - 1] == b);
                        }
                    }
                }
            }
            i = i + 1;
        }
        proof {
            assert forall|b: BlockMetadata| result@.contains(b) <==> exists|k: u64| #[trigger] self.pending().contains_key(k) && self.ready_for_check(k, piece_length) && b == self.pending()[k][0] by {
                if result@.contains(b) {
                    let a = choose|a: int| 0 <= a < n && self.entry_ready(a, piece_length) && b == #[trigger] self.pending_blocks@[a].blocks@[0];
                    lemma_entries_map_at(self.pending_blocks@, a);
                    let k = self.pending_blocks@[a].piece_index;
                    assert(self.pending().contains_key(k) && self.ready_for_check(k, piece_length) && b == self.pending()[k][0]);
                }
                if exists|k: u64| #[trigger] self.pending().contains_key(k) && self.ready_for_check(k, piece_length) && b == self.pending()[k][0] {
                    let k = choose|k: u64| #[trigger] self.pending().contains_key(k) && self.ready_for_check(k, piece_length) && b == self.pending()[k][0];
                    let a = choose|a: int| 0 <= a < n && self.pending_blocks@[a].piece_index == k;
                    lemma_entries_map_at(self.pending_blocks@, a);
                    assert(self.entry_ready(a, piece_length) && b == self.pending_blocks@[a].blocks@[0]);
                }
            }
        }
        result
    }

    /// The blocks of piece `k` form one whole piece not already known as good.
    pub open spec fn ready_for_check(&self, k: u64, piece_length: usize) -> bool {
        let blocks = self.pending()[k];
        &&& spec_piece_is_complete(self.total_blocks(), self.last_block_size(), piece_length, blocks)
        &&& !self.old_states().contains(PieceState::Good(blocks[0].piece_index))
    }

    closed spec fn entry_ready(&self, a: int, piece_length: usize) -> bool {
        let blocks = self.pending_blocks@[a].blocks@;
        &&& spec_piece_is_complete(self.total_blocks, self.last_block_size, piece_length, blocks)
        &&& !self.old_states@.to_set().contains(PieceState::Good(blocks[0].piece_index))
    }

    fn has_old_state(&self, state: PieceState) -> (r: bool)
        ensures
            r == self.old_states@.to_set().contains(state),
    {
        let mut i: usize = 0;
        while i < self.old_states.len()
            invariant
                i <= self.old_states@.len(),
                forall|j: int| 0 <= j < i ==> self.old_states@[j] != state,
            decreases self.old_states@.len() - i,
        {
            if self.old_states[i] == state {
                proof {
                    assert(self.old_states@.contains(state));
                }
                return true;
            }
            i = i + 1;
        }
        false
    }

    /// Records the outcome of hashing a whole piece: the piece (the block
    /// returned by `begin_whole_piece_check`) is good when the SHA-1 digest of
    /// `piece_data` equals `expected_hash`, and bad otherwise. The new state is
    /// queued for the next diff and the pending blocks of that piece are
    /// dropped.
    pub fn finish_piece_check(&mut self, block: &BlockMetadata, piece_data: &[u8], expected_hash: &ShaHash) -> (r: PieceState)
        requires
            old(self).wf(),
        ensures
            final(self).wf(),
            r == (if sha1_digest(piece_data@) == expected_hash@ {
                PieceState::Good(block.piece_index)
            } else {
                PieceState::Bad(block.piece_index)
            }),
            final(self).new_states() == old(self).new_states().push(r),
            final(self).pending() == (if old(self).pending().contains_key(block.piece_index) {
                old(self).pending().insert(block.piece_index, Seq::<BlockMetadata>::empty())
            } else {
                old(self).pending()
            }),
            final(self).old_states() == old(self).old_states(),
            final(self).total_blocks() == old(self).total_blocks(),
            final(self).last_block_size() == old(self).last_block_size(),
    {
        let calculated_hash = sha1_bytes(piece_data);
        let state = if hash_eq(&calculated_hash, expected_hash) {
            PieceState::Good(block.piece_index)
        } else {
            PieceState::Bad(block.piece_index)
        };
        self.new_states.push(state);
        let ghost old_entries = self.pending_blocks@;
        let k = block.piece_index;
        match self.find_entry(k) {
            Some(i) => {
                let entry = self.pending_blocks.remove(i);
                self.pending_blocks.insert(i, PendingPiece { piece_index: entry.piece_index, blocks: Vec::new() });
                proof {
                    let s = self.pending_blocks@;
                    assert forall|a: int| 0 <= a < s.len() && a != i implies s[a] == old_entries[a] by {}
                    assert(unique_keys(s));
                    assert(s[i as int].blocks@.len() == 0);
                    lemma_entries_map_at(old_entries, i as int);
                    let m_new = entries_map(s);
                    let m_old = entries_map(old_entries);
                    let expected = m_old.insert(k, Seq::<BlockMetadata>::empty());
                    assert forall|key: u64| m_new.contains_key(key) <==> expected.contains_key(key) by {
                        if has_key(s, key) {
                            let a = choose|a: int| 0 <= a < s.len() && s[a].piece_index == key;
                            assert(old_entries[a].piece_index == key);
                        }
                        if has_key(old_entries, key) {
                            let a = choose|a: int| 0 <= a < old_entries.len() && old_entries[a].piece_index == key;
                            assert(s[a].piece_index == key);
                        }
                    }
                    assert forall|key: u64| #[trigger] m_new.contains_key(key) implies m_new[key] == expected[key] by {
                        let a = choose|a: int| 0 <= a < s.len() && s[a].piece_index == key;
                        lemma_entries_map_at(s, a);
                        if a != i {
                            lemma_entries_map_at(old_entries, a);
                        }
                    }
                    assert(m_new =~= expected);
                }
            }
            None => {
                proof {
                    assert(!old(self).pending().contains_key(k));
                }
            }
        }
        state
    }

    /// Records the outcome of hashing every piece read back: `blocks[i]`
    /// (as returned by `begin_whole_piece_check`) was read as `data[i]` and
    /// is checked against the hash of its piece in `piece_hashes`. Returns
    /// the states in order; the pending blocks of each of those pieces are
    /// dropped.
    pub fn finish_piece_checks(&mut self, blocks: &Vec<BlockMetadata>, data: &Vec<Vec<u8>>, piece_hashes: &Vec<ShaHash>)
        -> (r: Vec<PieceState>)
        requires
            old(self).wf(),
            data@.len() == blocks@.len(),
            forall|i: int| 0 <= i < blocks@.len() ==> (#[trigger] blocks@[i]).piece_index < piece_hashes@.len(),
        ensures
            final(self).wf(),
            r@.len() == blocks@.len(),
            forall|i: int| 0 <= i < blocks@.len() ==> #[trigger] r@[i] == (if sha1_digest(data@[i]@)
                == piece_hashes@[blocks@[i].piece_index as int]@ {
                PieceState::Good(blocks@[i].piece_index)
            } else {
                PieceState::Bad(blocks@[i].piece_index)
            }),
            final(self).new_states() == old(self).new_states() + r@,
            final(self).pending() == Map::new(
                |k: u64| old(self).pending().contains_key(k),
                |k: u64| if checked_piece(blocks@, k) { Seq::<BlockMetadata>::empty() } else { old(self).pending()[k] },
            ),
            final(self).old_states() == old(self).old_states(),
            final(self).total_blocks() == old(self).total_blocks(),
            final(self).last_block_size() == old(self).last_block_size(),
    {
        let mut states: Vec<PieceState> = Vec::new();
        let mut i: usize = 0;
        proof {
            assert(old(self).pending() =~= Map::new(
                |k: u64| old(self).pending().contains_key(k),
                |k: u64| if checked_piece(blocks@.take(0), k) { Seq::<BlockMetadata>::empty() } else { old(self).pending()[k] },
            ));
        }
        while i < blocks.len()
            invariant
                i <= blocks@.len(),
                data@.len() == blocks@.len(),
                forall|j: int| 0 <= j < blocks@.len() ==> (#[trigger] blocks@[j]).piece_index < piece_hashes@.len(),
                self.wf(),
                states@.len() == i,
                forall|j: int| 0 <= j < i ==> #[trigger] states@[j] == (if sha1_digest(data@[j]@)
                    == piece_hashes@[blocks@[j].piece_index as int]@ {
                    PieceState::Good(blocks@[j].piece_index)
                } else {
                    PieceState::Bad(blocks@[j].piece_index)
                }),
                self.new_states() == old(self).new_states() + states@,
                self.pending() == Map::new(
                    |k: u64| old(self).pending().contains_key(k),
                    |k: u64| if checked_piece(blocks@.take(i as int), k) { Seq::<BlockMetadata>::empty() } else { old(self).pending()[k] },
                ),
                self.old_states() == old(self).old_states(),
                self.total_blocks() == old(self).total_blocks(),
                self.last_block_size() == old(self).last_block_size(),
            decreases blocks@.len() - i,
        {
            let block = &blocks[i];
            let count = piece_hashes.len();
            assert(block.piece_index < count);
            let index = block.piece_index as usize;
            let ghost before = self.pending();
            let ghost states0 = states@;
            let state = self.finish_piece_check(block, data[i].as_slice(), &piece_hashes[index]);
            states.push(state);
            proof {
                assert(states@[i as int] == state);
                assert(states@ == states0.push(state));
                let k0 = blocks@[i as int].piece_index;
                let taken = blocks@.take(i as int);
                let next = blocks@.take(i + 1);
                assert(next =~= taken.push(blocks@[i as int]));
                assert forall|k: u64| checked_piece(next, k) <==> checked_piece(taken, k) || k == k0 by {
                    if checked_piece(next, k) && k != k0 {
                        let j = choose|j: int| 0 <= j < next.len() && (#[trigger] next[j]).piece_index == k;
                        assert(j < taken.len());
                        assert(taken[j] == next[j]);
                    }
                    if checked_piece(taken, k) {
                        let j = choose|j: int| 0 <= j < taken.len() && (#[trigger] taken[j]).piece_index == k;
                        assert(next[j] == taken[j]);
                    }
                    if k == k0 {
                        assert(next[i as int].piece_index == k);
                    }
                }
                assert(self.new_states() =~= old(self).new_states() + states@);
                assert(self.pending() =~= Map::new(
                    |k: u64| old(self).pending().contains_key(k),
                    |k: u64| if checked_piece(next, k) { Seq::<BlockMetadata>::empty() } else { old(self).pending()[k] },
                ));
            }
            i = i + 1;
        }
        proof {
            assert(blocks@.take(blocks@.len() as int) =~= blocks@);
        }
        states
    }
}

/// Some block in `blocks` belongs to piece `k`.
pub open spec fn checked_piece(blocks: Seq<BlockMetadata>, k: u64) -> bool {
    exists|j: int| 0 <= j < blocks.len() && (#[trigger] blocks[j]).piece_index == k
}

/// A piece is complete when its blocks merged into a single block that is as
/// long as a piece, or that is the last piece and as long as the last piece.
pub open spec fn spec_piece_is_complete(total_blocks: usize, last_block_size: usize, piece_length: usize, messages: Seq<BlockMetadata>) -> bool {
    &&& messages.len() == 1
    &&& (messages[0].block_length == piece_length
        || (messages[0].piece_index == total_blocks - 1 && messages[0].block_length == last_block_size))
}

/// True if the piece is ready to be hashed and checked (full) as good or not.
pub fn piece_is_complete(total_blocks: usize, last_block_size: usize, piece_length: usize, messages: &[BlockMetadata]) -> (r: bool)
    requires
        messages@.len() > 0 ==> total_blocks > 0,
    ensures
        r == spec_piece_is_complete(total_blocks, last_block_size, piece_length, messages@),
{
    if messages.len() == 0 {
        return false;
    }
    let is_single_message = messages.len() == 1;
    let is_piece_length = messages[0].block_length == piece_length;
    let is_last_block = messages[0].piece_index == (total_blocks - 1) as u64;
    let is_last_block_length = messages[0].block_length == last_block_size;
    is_single_message && (is_piece_length || (is_last_block && is_last_block_length))
}

/// Sum of a sequence of lengths.
pub open spec fn total_length(s: Seq<u64>) -> int
    decreases s.len(),
{
    if s.len() == 0 {
        0
    } else {
        total_length(s.drop_last()) + s.last()
    }
}

proof fn lemma_total_length_prefix(s: Seq<u64>, i: int)
    requires
        0 <= i <= s.len(),
    ensures
        0 <= total_length(s.take(i)) <= total_length(s),
    decreases s.len() - i,
{
    if i < s.len() {
        lemma_total_length_prefix(s, i + 1);
        assert(s.take(i + 1).drop_last() =~= s.take(i));
    } else {
        assert(s.take(i) =~= s);
    }
    lemma_total_length_nonneg(s.take(i));
}

proof fn lemma_total_length_nonneg(s: Seq<u64>)
    ensures
        total_length(s) >= 0,
    decreases s.len(),
{
    if s.len() > 0 {
        lemma_total_length_nonneg(s.drop_last());
    }
}

/// Size of the last piece: the total length of the files modulo the piece
/// length (zero when the total is a multiple of the piece length).
pub fn last_piece_size(piece_length: u64, file_lengths: &[u64]) -> (r: usize)
    requires
        piece_length > 0,
        total_length(file_lengths@) <= u64::MAX,
    ensures
        r == (total_length(file_lengths@) % (piece_length as int)) as usize,
{
    let mut total_bytes: u64 = 0;
    let mut i: usize = 0;
    while i < file_lengths.len()
        invariant
            i <= file_lengths@.len(),
            total_bytes == total_length(file_lengths@.take(i as int)),
            total_length(file_lengths@) <= u64::MAX,
        decreases file_lengths@.len() - i,
    {
        proof {
            lemma_total_length_prefix(file_lengths@, i + 1);
            assert(file_lengths@.take(i + 1).drop_last() =~= file_lengths@.take(i as int));
        }
        total_bytes = total_bytes + file_lengths[i];
        i = i + 1;
    }
    proof {
        assert(file_lengths@.take(i as int) =~= file_lengths@);
    }
    (total_bytes % piece_length) as usize
}

// ---------------------------------------------------------------------------
// Reporting piece states.

/// A state is reported when the piece is good, or when bad pieces are
/// reported too.
pub open spec fn reported(st: PieceState, include_bad: bool) -> bool {
    st is Good || include_bad
}

/// Which of the states are reported.
pub open spec fn report_flags(states: Seq<PieceState>, include_bad: bool) -> Seq<bool> {
    Seq::new(states.len(), |i: int| reported(states[i], include_bad))
}

/// The indices of the pieces whose state changed since the last report,
/// good ones always and bad ones when asked; the new states become old.
pub fn piece_diff(checker: &mut PieceStateChecker, include_bad: bool) -> (r: Vec<u64>)
    requires
        old(checker).wf(),
    ensures
        final(checker).wf(),
        r@ == selected_indices(old(checker).new_states(), report_flags(old(checker).new_states(), include_bad)),
        final(checker).new_states() == Seq::<PieceState>::empty(),
        final(checker).old_states() == old(checker).old_states().union(old(checker).new_states().to_set()),
        final(checker).pending() == old(checker).pending(),
{
    let ghost states = checker.new_states();
    let r = checker.run_with_diff(move |st: PieceState| -> (keep: bool)
        ensures
            keep == reported(st, include_bad),
    {
        match st {
            PieceState::Good(_) => true,
            PieceState::Bad(_) => include_bad,
        }
    });
    proof {
        let flags = choose|flags: Seq<bool>| {
            &&& flags.len() == states.len()
            &&& forall|i: int| 0 <= i < flags.len() ==> #[trigger] flags[i] == reported(states[i], include_bad)
            &&& r@ == selected_indices(states, flags)
        };
        assert(flags =~= report_flags(states, include_bad));
    }
    r
}

} // verus!
