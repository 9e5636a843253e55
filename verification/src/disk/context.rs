use vstd::prelude::*;

use crate::disk::piece_checker::PieceStateChecker;
use crate::sha::{hash_eq, InfoHash, ShaHash};

verus! {

/// A file of a torrent, relative to the torrent's directory.
pub struct FileInfo {
    pub path: Vec<String>,
    pub length: u64,
}

/// What the disk manager knows of a torrent's info dictionary.
pub struct Metainfo {
    pub info_hash: InfoHash,
    pub directory: Option<String>,
    pub piece_length: u64,
    pub pieces: Vec<ShaHash>,
    pub files: Vec<FileInfo>,
}

impl Metainfo {
    pub fn info_hash(&self) -> (r: InfoHash)
        ensures
            r == self.info_hash,
    {
        self.info_hash
    }
}

/// A torrent together with the state of its piece checks.
pub struct MetainfoState {
    pub file: Metainfo,
    pub state: PieceStateChecker,
}

impl MetainfoState {
    pub fn new(file: Metainfo, state: PieceStateChecker) -> (r: MetainfoState)
        ensures
            r.file == file,
            r.state == state,
    {
        MetainfoState { file, state }
    }
}

/// The entries hold pairwise distinct info hashes.
pub open spec fn unique_hashes(s: Seq<MetainfoState>) -> bool {
    forall|i: int, j: int| 0 <= i < s.len() && 0 <= j < s.len() && i != j ==> s[i].file.info_hash@ != s[j].file.info_hash@
}

/// Some entry is for the given info hash.
pub open spec fn has_hash(s: Seq<MetainfoState>, h: Seq<u8>) -> bool {
    exists|i: int| 0 <= i < s.len() && s[i].file.info_hash@ == h
}

/// The entries as a map from info hash to torrent state.
pub open spec fn states_map(s: Seq<MetainfoState>) -> Map<Seq<u8>, MetainfoState> {
    Map::new(
        |h: Seq<u8>| has_hash(s, h),
        |h: Seq<u8>| s[choose|i: int| 0 <= i < s.len() && s[i].file.info_hash@ == h],
    )
}

proof fn lemma_states_map_at(s: Seq<MetainfoState>, i: int)
    requires
        unique_hashes(s),
        0 <= i < s.len(),
    ensures
        states_map(s).contains_key(s[i].file.info_hash@),
        states_map(s)[s[i].file.info_hash@] == s[i],
{
    let h = s[i].file.info_hash@;
    assert(has_hash(s, h));
    let j = choose|j: int| 0 <= j < s.len() && s[j].file.info_hash@ == h;
    assert(j == i);
}

/// Torrents known to the disk manager, with the file system they live on.
pub struct DiskManagerContext<F> {
    torrent_contexts: Vec<MetainfoState>,
    fs: F,
}

impl<F> DiskManagerContext<F> {
    /// The torrents, by info hash.
    pub closed spec fn torrents(&self) -> Map<Seq<u8>, MetainfoState> {
        states_map(self.torrent_contexts@)
    }

    pub closed spec fn fs(&self) -> F {
        self.fs
    }

    /// At most one state per info hash.
    pub closed spec fn wf(&self) -> bool {
        unique_hashes(self.torrent_contexts@)
    }

    pub fn new(fs: F) -> (r: DiskManagerContext<F>)
        ensures
            r.wf(),
            r.torrents() == Map::<Seq<u8>, MetainfoState>::empty(),
            r.fs() == fs,
    {
        let r = DiskManagerContext { torrent_contexts: Vec::new(), fs };
        assert(states_map(r.torrent_contexts@) =~= Map::<Seq<u8>, MetainfoState>::empty());
        r
    }

    pub fn filesystem(&self) -> (r: &F)
        ensures
            *r == self.fs(),
    {
        &self.fs
    }

    fn find(&self, hash: &InfoHash) -> (r: Option<usize>)
        requires
            unique_hashes(self.torrent_contexts@),
        ensures
            r is None ==> !has_hash(self.torrent_contexts@, hash@),
            r matches Some(i) ==> i < self.torrent_contexts@.len() && self.torrent_contexts@[i as int].file.info_hash@ == hash@,
    {
        let mut i: usize = 0;
        while i < self.torrent_contexts.len()
            invariant
                i <= self.torrent_contexts@.len(),
                forall|j: int| 0 <= j < i ==> self.torrent_contexts@[j].file.info_hash@ != hash@,
            decreases self.torrent_contexts@.len() - i,
        {
            if hash_eq(&self.torrent_contexts[i].file.info_hash, hash) {
                return Some(i);
            }
            i = i + 1;
        }
        None
    }

    /// Adds the torrent unless one with the same info hash is present;
    /// returns whether it was added.
    pub fn insert_torrent(&mut self, file: Metainfo, state: PieceStateChecker) -> (r: bool)
        requires
            old(self).wf(),
        ensures
            final(self).wf(),
            r == !old(self).torrents().contains_key(file.info_hash@),
            r ==> final(self).torrents() == old(self).torrents().insert(file.info_hash@, MetainfoState { file, state }),
            !r ==> final(self).torrents() == old(self).torrents(),
            final(self).fs() == old(self).fs(),
    {
        let ghost old_entries = self.torrent_contexts@;
        let hash = file.info_hash;
        match self.find(&hash) {
            Some(i) => {
                proof {
                    lemma_states_map_at(old_entries, i as int);
                }
                false
            }
            None => {
                let ghost entry = MetainfoState { file, state };
                self.torrent_contexts.push(MetainfoState::new(file, state));
                proof {
                    let s = self.torrent_contexts@;
                    let n = old_entries.len() as int;
                    assert forall|a: int| 0 <= a < n implies s[a] == old_entries[a] by {}
                    assert(unique_hashes(s));
                    let m_new = states_map(s);
                    let m_old = states_map(old_entries);
                    let expected = m_old.insert(hash@, entry);
                    lemma_states_map_at(s, n);
                    assert forall|h: Seq<u8>| m_new.contains_key(h) <==> expected.contains_key(h) by {
                        if has_hash(s, h) && h != hash@ {
                            let a = choose|a: int| 0 <= a < s.len() && s[a].file.info_hash@ == h;
                            assert(a < n);
                            assert(old_entries[a].file.info_hash@ == h);
                        }
                        if has_hash(old_entries, h) {
                            let a = choose|a: int| 0 <= a < old_entries.len() && old_entries[a].file.info_hash@ == h;
                            assert(s[a].file.info_hash@ == h);
                        }
                    }
                    assert forall|h: Seq<u8>| #[trigger] m_new.contains_key(h) implies m_new[h] == expected[h] by {
                        let a = choose|a: int| 0 <= a < s.len() && s[a].file.info_hash@ == h;
                        lemma_states_map_at(s, a);
                        if a != n {
                            lemma_states_map_at(old_entries, a);
                        }
                    }
                    assert(m_new =~= expected);
                }
                true
            }
        }
    }

    /// Removes the torrent with the given info hash; returns whether one was
    /// present.
    pub fn remove_torrent(&mut self, hash: InfoHash) -> (r: bool)
        requires
            old(self).wf(),
        ensures
            final(self).wf(),
            r == old(self).torrents().contains_key(hash@),
            final(self).torrents() == old(self).torrents().remove(hash@),
            final(self).fs() == old(self).fs(),
    {
        let ghost old_entries = self.torrent_contexts@;
        match self.find(&hash) {
            Some(i) => {
                self.torrent_contexts.remove(i);
                proof {
                    let s = self.torrent_contexts@;
                    assert forall|a: int| 0 <= a < s.len() implies s[a] == old_entries[if a < i { a } else { a + 1 }] by {}
                    assert(unique_hashes(s)) by {
                        assert forall|a: int, b: int| 0 <= a < s.len() && 0 <= b < s.len() && a != b implies s[a].file.info_hash@ != s[b].file.info_hash@ by {
                            let a2 = if a < i { a } else { a + 1 };
                            let b2 = if b < i { b } else { b + 1 };
                            assert(s[a] == old_entries[a2]);
                            assert(s[b] == old_entries[b2]);
                        }
                    }
                    lemma_states_map_at(old_entries, i as int);
                    let m_new = states_map(s);
                    let m_old = states_map(old_entries);
                    let expected = m_old.remove(hash@);
                    assert forall|h: Seq<u8>| m_new.contains_key(h) <==> expected.contains_key(h) by {
                        if has_hash(s, h) {
                            let a = choose|a: int| 0 <= a < s.len() && s[a].file.info_hash@ == h;
                            let a2 = if a < i { a } else { a + 1 };
                            assert(old_entries[a2].file.info_hash@ == h);
                            assert(a2 != i);
                        }
                        if has_hash(old_entries, h) && h != hash@ {
                            let a = choose|a: int| 0 <= a < old_entries.len() && old_entries[a].file.info_hash@ == h;
                            assert(a != i);
                            let a1 = if a < i { a } else { a - 1 };
                            assert(s[a1].file.info_hash@ == h);
                        }
                    }
                    assert forall|h: Seq<u8>| #[trigger] m_new.contains_key(h) implies m_new[h] == expected[h] by {
                        let a = choose|a: int| 0 <= a < s.len() && s[a].file.info_hash@ == h;
                        lemma_states_map_at(s, a);
                        let a2 = if a < i { a } else { a + 1 };
                        lemma_states_map_at(old_entries, a2);
                    }
                    assert(m_new =~= expected);
                }
                true
            }
            None => {
                proof {
                    assert(old(self).torrents().remove(hash@) =~= old(self).torrents());
                }
                false
            }
        }
    }

    /// Runs `call` on the torrent with the given info hash, letting it update
    /// the piece checker state; returns whether the torrent was present. The
    /// stored state is the one `call` leaves; the torrent's file and every
    /// other torrent are left as they were.
    pub fn update_torrent_context<C>(&mut self, hash: InfoHash, call: C) -> (r: bool)
        where
            C: FnOnce(&Metainfo, &mut PieceStateChecker),
        requires
            old(self).wf(),
            forall|file: &Metainfo, state: &mut PieceStateChecker| call.requires((file, state)),
        ensures
            final(self).wf(),
            r == old(self).torrents().contains_key(hash@),
            final(self).torrents().dom() == old(self).torrents().dom(),
            forall|h: Seq<u8>| #[trigger] old(self).torrents().contains_key(h) && h != hash@ ==> final(self).torrents()[h] == old(self).torrents()[h],
            r ==> final(self).torrents()[hash@].file == old(self).torrents()[hash@].file,
            r ==> exists|m: &mut PieceStateChecker| call.ensures((&old(self).torrents()[hash@].file, m), ())
                && *m == old(self).torrents()[hash@].state && *final(m) == final(self).torrents()[hash@].state,
            final(self).fs() == old(self).fs(),
    {
        let ghost old_entries = self.torrent_contexts@;
        match self.find(&hash) {
            Some(i) => {
                let entry = self.torrent_contexts.remove(i);
                let file = entry.file;
                let mut state = entry.state;
                call(&file, &mut state);
                self.torrent_contexts.insert(i, MetainfoState { file, state });
                proof {
                    let s = self.torrent_contexts@;
                    assert forall|a: int| 0 <= a < s.len() && a != i implies s[a] == old_entries[a] by {}
                    assert(unique_hashes(s));
                    lemma_states_map_at(old_entries, i as int);
                    lemma_states_map_at(s, i as int);
                    let m_new = states_map(s);
                    let m_old = states_map(old_entries);
                    assert forall|h: Seq<u8>| m_new.contains_key(h) <==> m_old.contains_key(h) by {
                        if has_hash(s, h) {
                            let a = choose|a: int| 0 <= a < s.len() && s[a].file.info_hash@ == h;
                            assert(old_entries[a].file.info_hash@ == h);
                        }
                        if has_hash(old_entries, h) {
                            let a = choose|a: int| 0 <= a < old_entries.len() && old_entries[a].file.info_hash@ == h;
                            assert(s[a].file.info_hash@ == h);
                        }
                    }
                    assert(m_new.dom() =~= m_old.dom());
                    assert forall|h: Seq<u8>| #[trigger] m_old.contains_key(h) && h != hash@ implies m_new[h] == m_old[h] by {
                        let a = choose|a: int| 0 <= a < old_entries.len() && old_entries[a].file.info_hash@ == h;
                        lemma_states_map_at(old_entries, a);
                        lemma_states_map_at(s, a);
                    }
                }
                true
            }
            None => false,
        }
    }

    /// Runs `call` on the stored file and state of the torrent with the given
    /// info hash; returns whether the torrent was present.
    pub fn use_torrent_context<C>(&self, hash: InfoHash, call: C) -> (r: bool)
        where
            C: FnOnce(&Metainfo, &PieceStateChecker),
        requires
            self.wf(),
            forall|file: &Metainfo, state: &PieceStateChecker| call.requires((file, state)),
        ensures
            r == self.torrents().contains_key(hash@),
            r ==> call.ensures((&self.torrents()[hash@].file, &self.torrents()[hash@].state), ()),
    {
        match self.find(&hash) {
            Some(i) => {
                proof {
                    lemma_states_map_at(self.torrent_contexts@, i as int);
                }
                let entry = &self.torrent_contexts[i];
                call(&entry.file, &entry.state);
                true
            }
            None => false,
        }
    }
}

/// Inserting a torrent that is not present and then removing it leaves the
/// torrents as they were.
pub proof fn lemma_insert_then_remove(m: Map<Seq<u8>, MetainfoState>, h: Seq<u8>, v: MetainfoState)
    requires
        !m.contains_key(h),
    ensures
        m.insert(h, v).remove(h) == m,
{
    assert(m.insert(h, v).remove(h) =~= m);
}

} // verus!
