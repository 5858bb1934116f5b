//! An in-memory storage backend: one ordered key space of strings to bytes.
use crate::order::{lex_lt, lemma_lex_skip, starts, str_lt, str_starts_with, lemma_lex_irreflexive, lemma_lex_trichotomy, lemma_lex_transitive, lemma_lex_asymmetric};
use crate::codec::{decode_blob, decode_time, decode_u64, encode_blob, encode_time, encode_u64, spec_encode_blob, spec_encode_time, spec_encode_u64};
use crate::key::{Address, Key, address_marker, join_segs, lemma_split_len, seg_valid, segs_ok, segs_valid, split_segments, split_str, strs_view, vp_marker};
use crate::layout::{EntryKind, reads_back_as, lemma_subspace_key_segs, address_gen_path, block_readable, entry_ok, epoch_path, epoch_start_height_key, epoch_start_time_key, essentials_present, hash_path, is_vp_path, kind_of, last_height, lemma_kind_paths, lemma_subspace_path_kind, no_block, pointers_ok, root_path, store_path, subspace_key_ok, under_height, address_gen_seg, committed, epoch_seg, hash_seg, lemma_layout_segments, root_seg, store_seg, subspace_path, subspace_seg, subspace_writes, tree_seg};
use crate::types::{BlockHeight, BlockState, Error, decimal, lemma_decimal_seg, subspace_map};
use vstd::bytes::{lemma_auto_spec_u64_to_from_le_bytes};
use vstd::prelude::*;
use vstd::string::*;

verus! {

broadcast use vstd::std_specs::vec::vec_clone_deep_view_proof;

/// The keys of the entries rise strictly in lexicographic order.
pub open spec fn sorted_entries(s: Seq<(String, Vec<u8>)>) -> bool {
    forall|i: int, j: int| 0 <= i < j < s.len() ==> lex_lt(#[trigger] s[i].0@, #[trigger] s[j].0@)
}

pub open spec fn has_key(s: Seq<(String, Vec<u8>)>, k: Seq<char>) -> bool {
    exists|i: int| 0 <= i < s.len() && #[trigger] s[i].0@ == k
}

/// The place of an entry under `k`.
pub open spec fn key_index(s: Seq<(String, Vec<u8>)>, k: Seq<char>) -> int {
    choose|i: int| 0 <= i < s.len() && #[trigger] s[i].0@ == k
}

/// The entries as a map from key to value.
pub open spec fn entries_view(s: Seq<(String, Vec<u8>)>) -> Map<Seq<char>, Seq<u8>> {
    Map::new(|k: Seq<char>| has_key(s, k), |k: Seq<char>| s[key_index(s, k)].1@)
}

pub proof fn lemma_entries_view_at(s: Seq<(String, Vec<u8>)>, i: int)
    requires
        sorted_entries(s),
        0 <= i < s.len(),
    ensures
        entries_view(s).contains_key(s[i].0@),
        entries_view(s)[s[i].0@] == s[i].1@,
{
    let k = s[i].0@;
    assert(has_key(s, k));
    let j = key_index(s, k);
    if j != i {
        lemma_lex_irreflexive(k);
        if j < i {
            assert(lex_lt(s[j].0@, s[i].0@));
        } else {
            assert(lex_lt(s[i].0@, s[j].0@));
        }
    }
}

/// An in-memory key space, ordered by key.
#[derive(Debug)]
pub struct MockDB {
    entries: Vec<(String, Vec<u8>)>,
}

impl View for MockDB {
    type V = Map<Seq<char>, Seq<u8>>;

    closed spec fn view(&self) -> Map<Seq<char>, Seq<u8>> {
        entries_view(self.entries@)
    }
}

impl MockDB {
    pub closed spec fn wf(&self) -> bool {
        sorted_entries(self.entries@)
    }

    /// An empty key space.
    pub fn new() -> (r: MockDB)
        ensures
            r.wf(),
            r@ == Map::<Seq<char>, Seq<u8>>::empty(),
    {
        let r = MockDB { entries: Vec::new() };
        assert(r@ =~= Map::<Seq<char>, Seq<u8>>::empty());
        r
    }

    /// The value under `k`, if any.
    pub fn get(&self, k: &String) -> (r: Option<&Vec<u8>>)
        requires
            self.wf(),
        ensures
            r is Some <==> self@.contains_key(k@),
            r matches Some(v) ==> v@ == self@[k@],
    {
        let mut i: usize = 0;
        while i < self.entries.len()
            invariant
                self.wf(),
                i <= self.entries@.len(),
                forall|j: int| 0 <= j < i ==> self.entries@[j].0@ != k@,
            decreases self.entries@.len() - i,
        {
            if self.entries[i].0 == *k {
                proof {
                    lemma_entries_view_at(self.entries@, i as int);
                }
                return Some(&self.entries[i].1);
            }
            i = i + 1;
        }
        None
    }

    /// Stores `v` under `k`, replacing what was there.
    pub fn put(&mut self, k: String, v: Vec<u8>)
        requires
            old(self).wf(),
        ensures
            final(self).wf(),
            final(self)@ == old(self)@.insert(k@, v@),
    {
        let ghost old_s = self.entries@;
        let mut i: usize = 0;
        while i < self.entries.len() && str_lt(self.entries[i].0.as_str(), k.as_str())
            invariant
                self.entries@ == old_s,
                sorted_entries(old_s),
                i <= old_s.len(),
                forall|j: int| 0 <= j < i ==> lex_lt(#[trigger] old_s[j].0@, k@),
            decreases old_s.len() - i,
        {
            i = i + 1;
        }
        let ghost kv = k@;
        let ghost vv = v@;
        if i < self.entries.len() && self.entries[i].0 == k {
            self.entries.set(i, (k, v));
            let ghost s = self.entries@;
            assert(s == old_s.update(i as int, s[i as int]));
            assert(sorted_entries(s)) by {
                assert forall|a: int, b: int| 0 <= a < b < s.len() implies lex_lt(#[trigger] s[a].0@, #[trigger] s[b].0@) by {
                    assert(lex_lt(old_s[a].0@, old_s[b].0@));
                }
            }
            assert(self@ =~= entries_view(old_s).insert(kv, vv)) by {
                assert forall|x: Seq<char>| #[trigger] entries_view(s).contains_key(x) <==> entries_view(old_s).insert(kv, vv).contains_key(x) by {
                    if has_key(s, x) {
                        let j = choose|j: int| 0 <= j < s.len() && #[trigger] s[j].0@ == x;
                        if j != i {
                            assert(old_s[j].0@ == x);
                        }
                    }
                    if has_key(old_s, x) {
                        let j = choose|j: int| 0 <= j < old_s.len() && #[trigger] old_s[j].0@ == x;
                        assert(s[j].0@ == x);
                    }
                }
                assert forall|x: Seq<char>| #[trigger] entries_view(s).contains_key(x) implies entries_view(s)[x] == entries_view(old_s).insert(kv, vv)[x] by {
                    let j = choose|j: int| 0 <= j < s.len() && #[trigger] s[j].0@ == x;
                    lemma_entries_view_at(s, j);
                    if j != i {
                        assert(old_s[j].0@ == x);
                        lemma_entries_view_at(old_s, j);
                    }
                }
            }
        } else {
            proof {
                if i < old_s.len() {
                    lemma_lex_trichotomy(old_s[i as int].0@, kv);
                }
            }
            self.entries.insert(i, (k, v));
            let ghost s = self.entries@;
            assert(s[i as int].0@ == kv);
            assert(s =~= old_s.insert(i as int, s[i as int]));
            assert(sorted_entries(s)) by {
                assert forall|a: int, b: int| 0 <= a < b < s.len() implies lex_lt(#[trigger] s[a].0@, #[trigger] s[b].0@) by {
                    if b < i {
                        assert(lex_lt(old_s[a].0@, old_s[b].0@));
                    } else if b == i {
                        assert(lex_lt(old_s[a].0@, kv));
                    } else if a == i {
                        if b - 1 > i {
                            assert(lex_lt(old_s[i as int].0@, old_s[b - 1].0@));
                            lemma_lex_transitive(kv, old_s[i as int].0@, old_s[b - 1].0@);
                        }
                    } else if a < i {
                        assert(lex_lt(old_s[a].0@, kv));
                        if b - 1 > i {
                            assert(lex_lt(old_s[i as int].0@, old_s[b - 1].0@));
                            lemma_lex_transitive(kv, old_s[i as int].0@, old_s[b - 1].0@);
                        }
                        lemma_lex_transitive(old_s[a].0@, kv, old_s[b - 1].0@);
                    } else {
                        assert(lex_lt(old_s[a - 1].0@, old_s[b - 1].0@));
                    }
                }
            }
            assert(!has_key(old_s, kv)) by {
                if has_key(old_s, kv) {
                    let j = choose|j: int| 0 <= j < old_s.len() && #[trigger] old_s[j].0@ == kv;
                    lemma_lex_irreflexive(kv);
                    if j < i {
                        assert(lex_lt(old_s[j].0@, kv));
                    } else if j > i {
                        assert(lex_lt(old_s[i as int].0@, old_s[j].0@));
                        lemma_lex_asymmetric(kv, old_s[i as int].0@);
                    }
                }
            }
            assert(self@ =~= entries_view(old_s).insert(kv, vv)) by {
                assert forall|x: Seq<char>| #[trigger] entries_view(s).contains_key(x) <==> entries_view(old_s).insert(kv, vv).contains_key(x) by {
                    if has_key(s, x) {
                        let j = choose|j: int| 0 <= j < s.len() && #[trigger] s[j].0@ == x;
                        if j < i {
                            assert(old_s[j].0@ == x);
                        } else if j > i {
                            assert(old_s[j - 1].0@ == x);
                        }
                    }
                    if has_key(old_s, x) {
                        let j = choose|j: int| 0 <= j < old_s.len() && #[trigger] old_s[j].0@ == x;
                        if j < i {
                            assert(s[j].0@ == x);
                        } else {
                            assert(s[j + 1].0@ == x);
                        }
                    }
                }
                assert forall|x: Seq<char>| #[trigger] entries_view(s).contains_key(x) implies entries_view(s)[x] == entries_view(old_s).insert(kv, vv)[x] by {
                    let j = choose|j: int| 0 <= j < s.len() && #[trigger] s[j].0@ == x;
                    lemma_entries_view_at(s, j);
                    if j < i {
                        assert(old_s[j].0@ == x);
                        lemma_entries_view_at(old_s, j);
                    } else if j > i {
                        assert(old_s[j - 1].0@ == x);
                        lemma_entries_view_at(old_s, j - 1);
                    }
                }
            }
        }
    }
}

/// The key `k` with the fixed segment `seg` pushed.
fn push_lit(k: &Key, seg: &str) -> (r: Result<Key, Error>)
    ensures
        r is Ok <==> seg_valid(seg@),
        r matches Ok(x) ==> x@ == k@.push(seg@),
{
    match k.push(&String::from_str(seg)) {
        Ok(x) => Ok(x),
        Err(e) => Err(Error::KeyError(e)),
    }
}

impl Default for MockDB {
    fn default() -> (r: MockDB)
        ensures
            r.wf(),
            r@ == Map::<Seq<char>, Seq<u8>>::empty(),
    {
        MockDB::new()
    }
}

impl MockDB {
    /// Makes all earlier writes durable; in memory there is nothing to do.
    pub fn flush(&self) -> (r: Result<(), Error>)
        ensures
            r is Ok,
    {
        Ok(())
    }

    /// Commits `state`: the global epoch fields, the fields under its height,
    /// its subspace entries merged key by key, and last the global height.
    pub fn write_block(&mut self, state: BlockState) -> (r: Result<(), Error>)
        requires
            old(self).wf(),
            state.wf(),
        ensures
            final(self).wf(),
            r is Ok,
            final(self)@ == committed(old(self)@, state),
    {
        proof {
            lemma_layout_segments();
            lemma_decimal_seg(state.height.0 as nat);
        }
        let ghost h = state.height.0 as nat;
        let ghost m0 = self@;
        self.put(String::from_str("epoch_start_height"), encode_u64(state.epoch_start_height.0));
        self.put(String::from_str("epoch_start_time"), encode_time(state.epoch_start_time));
        let prefix_key = Key::from_segment(state.height.to_db_key());
        let tree_key = match push_lit(&prefix_key, "tree") {
            Ok(k) => k,
            Err(e) => return Err(e),
        };
        let key = match push_lit(&tree_key, "root") {
            Ok(k) => k,
            Err(e) => return Err(e),
        };
        assert(key@ =~= seq![decimal(h)] + seq![tree_seg(), root_seg()]);
        self.put(key.to_string(), encode_blob(state.root.as_slice()));
        let key = match push_lit(&tree_key, "store") {
            Ok(k) => k,
            Err(e) => return Err(e),
        };
        assert(key@ =~= seq![decimal(h)] + seq![tree_seg(), store_seg()]);
        self.put(key.to_string(), encode_blob(state.store.as_slice()));
        let key = match push_lit(&prefix_key, "hash") {
            Ok(k) => k,
            Err(e) => return Err(e),
        };
        assert(key@ =~= seq![decimal(h)] + seq![hash_seg()]);
        self.put(key.to_string(), encode_blob(state.hash.as_slice()));
        let key = match push_lit(&prefix_key, "epoch") {
            Ok(k) => k,
            Err(e) => return Err(e),
        };
        assert(key@ =~= seq![decimal(h)] + seq![epoch_seg()]);
        self.put(key.to_string(), encode_u64(state.epoch));
        let subspace_prefix = match push_lit(&prefix_key, "subspace") {
            Ok(k) => k,
            Err(e) => return Err(e),
        };
        let ghost m1 = self@;
        let mut i: usize = 0;
        while i < state.subspaces.len()
            invariant
                self.wf(),
                i <= state.subspaces@.len(),
                subspace_prefix@ == seq![decimal(h), subspace_seg()],
                self@ == subspace_writes(m1, h, state.subspaces@.subrange(0, i as int)),
            decreases state.subspaces@.len() - i,
        {
            let key = subspace_prefix.join(&state.subspaces[i].0);
            let value = state.subspaces[i].1.clone();
            assert(value@ == state.subspaces@[i as int].1@);
            assert(key@ =~= seq![decimal(h)] + (seq![subspace_seg()] + state.subspaces@[i as int].0@));
            self.put(key.to_string(), value);
            assert(state.subspaces@.subrange(0, i as int + 1).drop_last() =~= state.subspaces@.subrange(0, i as int));
            i = i + 1;
        }
        assert(state.subspaces@.subrange(0, state.subspaces@.len() as int) == state.subspaces@);
        let key = match push_lit(&prefix_key, "address_gen") {
            Ok(k) => k,
            Err(e) => return Err(e),
        };
        assert(key@ =~= seq![decimal(h)] + seq![address_gen_seg()]);
        self.put(key.to_string(), encode_blob(state.address_gen.as_slice()));
        self.put(String::from_str("height"), encode_u64(state.height.0));
        Ok(())
    }

    /// The subspace value under `key` as committed at `height`; none where
    /// nothing was written there.
    pub fn read(&self, height: BlockHeight, key: &Key) -> (r: Result<Option<Vec<u8>>, Error>)
        requires
            self.wf(),
        ensures
            r matches Ok(o) && (o is Some <==> self@.contains_key(subspace_path(height.0 as nat, key@)))
                && (o matches Some(v) ==> v@ == self@[subspace_path(height.0 as nat, key@)]),
    {
        proof {
            lemma_layout_segments();
            lemma_decimal_seg(height.0 as nat);
        }
        let prefix_key = Key::from_segment(height.to_db_key());
        let subspace_prefix = match push_lit(&prefix_key, "subspace") {
            Ok(k) => k,
            Err(e) => return Err(e),
        };
        let full = subspace_prefix.join(key);
        assert(full@ =~= seq![decimal(height.0 as nat)] + (seq![subspace_seg()] + key@));
        match self.get(&full.to_string()) {
            Some(v) => Ok(Some(v.clone())),
            None => Ok(None),
        }
    }
}

/// The entries of `s` whose keys begin with `full`, in order.
pub open spec fn hits(s: Seq<(String, Vec<u8>)>, full: Seq<char>) -> Seq<(Seq<char>, Seq<u8>)>
    decreases s.len(),
{
    if s.len() == 0 {
        Seq::empty()
    } else if starts(full, s[0].0@) {
        seq![(s[0].0@, s[0].1@)] + hits(s.drop_first(), full)
    } else {
        hits(s.drop_first(), full)
    }
}

proof fn lemma_hits_sound(s: Seq<(String, Vec<u8>)>, full: Seq<char>, j: int)
    requires
        0 <= j < hits(s, full).len(),
    ensures
        exists|i: int| 0 <= i < s.len() && starts(full, #[trigger] s[i].0@) && hits(s, full)[j] == (s[i].0@, s[i].1@),
    decreases s.len(),
{
    let t = s.drop_first();
    if starts(full, s[0].0@) && j == 0 {
        assert(hits(s, full)[0] == (s[0].0@, s[0].1@));
    } else {
        let jj = if starts(full, s[0].0@) { j - 1 } else { j };
        assert(hits(s, full)[j] == hits(t, full)[jj]);
        lemma_hits_sound(t, full, jj);
        let i = choose|i: int| 0 <= i < t.len() && starts(full, #[trigger] t[i].0@) && hits(t, full)[jj] == (t[i].0@, t[i].1@);
        assert(s[i + 1] == t[i]);
    }
}

proof fn lemma_hits_complete(s: Seq<(String, Vec<u8>)>, full: Seq<char>, i: int)
    requires
        0 <= i < s.len(),
        starts(full, s[i].0@),
    ensures
        exists|j: int| 0 <= j < hits(s, full).len() && #[trigger] hits(s, full)[j] == (s[i].0@, s[i].1@),
    decreases s.len(),
{
    let t = s.drop_first();
    if i == 0 {
        assert(hits(s, full)[0] == (s[0].0@, s[0].1@));
    } else {
        assert(t[i - 1] == s[i]);
        lemma_hits_complete(t, full, i - 1);
        let j = choose|j: int| 0 <= j < hits(t, full).len() && #[trigger] hits(t, full)[j] == (t[i - 1].0@, t[i - 1].1@);
        if starts(full, s[0].0@) {
            assert(hits(s, full)[j + 1] == hits(t, full)[j]);
        } else {
            assert(hits(s, full)[j] == hits(t, full)[j]);
        }
    }
}

proof fn lemma_hits_sorted(s: Seq<(String, Vec<u8>)>, full: Seq<char>)
    requires
        sorted_entries(s),
    ensures
        forall|a: int, b: int| 0 <= a < b < hits(s, full).len() ==> lex_lt(#[trigger] hits(s, full)[a].0, #[trigger] hits(s, full)[b].0),
    decreases s.len(),
{
    if s.len() > 0 {
        let t = s.drop_first();
        assert(sorted_entries(t)) by {
            assert forall|a: int, b: int| 0 <= a < b < t.len() implies lex_lt(#[trigger] t[a].0@, #[trigger] t[b].0@) by {
                assert(t[a] == s[a + 1] && t[b] == s[b + 1]);
            }
        }
        lemma_hits_sorted(t, full);
        let h = hits(s, full);
        let ht = hits(t, full);
        if starts(full, s[0].0@) {
            assert forall|a: int, b: int| 0 <= a < b < h.len() implies lex_lt(#[trigger] h[a].0, #[trigger] h[b].0) by {
                assert(h[b] == ht[b - 1]);
                if a == 0 {
                    lemma_hits_sound(t, full, b - 1);
                    let i = choose|i: int| 0 <= i < t.len() && starts(full, #[trigger] t[i].0@) && ht[b - 1] == (t[i].0@, t[i].1@);
                    assert(lex_lt(s[0].0@, s[i + 1].0@));
                } else {
                    assert(h[a] == ht[a - 1]);
                }
            }
        } else {
            assert(h == ht);
        }
    }
}

/// The entries of a store whose keys begin with a given string, in key order.
#[derive(Debug)]
pub struct MockIterator<'a> {
    prefix: String,
    db: &'a MockDB,
    pos: usize,
}

impl<'a> MockIterator<'a> {
    pub closed spec fn wf(&self) -> bool {
        self.db.wf() && self.pos <= self.db.entries@.len()
    }

    /// The entries still to come.
    pub closed spec fn rest(&self) -> Seq<(Seq<char>, Seq<u8>)> {
        hits(self.db.entries@.skip(self.pos as int), self.prefix@)
    }

    pub closed spec fn prefix(&self) -> Seq<char> {
        self.prefix@
    }

    /// The next entry whose key begins with the prefix.
    pub fn next(&mut self) -> (r: Option<(String, Vec<u8>)>)
        requires
            old(self).wf(),
        ensures
            final(self).wf(),
            final(self).prefix() == old(self).prefix(),
            r is None ==> old(self).rest().len() == 0 && final(self).rest() == old(self).rest(),
            r matches Some(e) ==> old(self).rest().len() > 0 && old(self).rest()[0] == (e.0@, e.1@)
                && final(self).rest() == old(self).rest().drop_first() && starts(old(self).prefix(), e.0@),
    {
        let ghost s = self.db.entries@;
        let ghost all = hits(s.skip(self.pos as int), self.prefix@);
        assert(all == old(self).rest());
        while self.pos < self.db.entries.len()
            invariant
                self.db.wf(),
                self.db.entries@ == s,
                self.pos <= s.len(),
                self.prefix@ == old(self).prefix@,
                hits(s.skip(self.pos as int), self.prefix@) == all,
                all == old(self).rest(),
            decreases s.len() - self.pos,
        {
            let i = self.pos;
            assert(s.skip(i as int).drop_first() =~= s.skip(i as int + 1));
            assert(s.skip(i as int)[0] == s[i as int]);
            self.pos = self.pos + 1;
            if str_starts_with(self.db.entries[i].0.as_str(), self.prefix.as_str()) {
                let k = self.db.entries[i].0.clone();
                let v = self.db.entries[i].1.clone();
                assert(v@ == s[i as int].1@);
                assert(all =~= seq![(k@, v@)] + hits(s.skip(i as int + 1), self.prefix@));
                assert(all.drop_first() =~= hits(s.skip(i as int + 1), self.prefix@));
                assert(k@ == s[i as int].0@);
                return Some((k, v));
            }
        }
        assert(s.skip(self.pos as int) =~= Seq::<(String, Vec<u8>)>::empty());
        None
    }
}

/// The subspace entries of one height under a key prefix, with the gas that
/// each costs.
#[derive(Debug)]
pub struct MockPrefixIterator<'a> {
    iter: MockIterator<'a>,
    db_prefix: String,
}

/// Each key with its first `n` characters taken off.
pub open spec fn strip_keys(s: Seq<(Seq<char>, Seq<u8>)>, n: nat) -> Seq<(Seq<char>, Seq<u8>)> {
    s.map_values(|e: (Seq<char>, Seq<u8>)| (e.0.skip(n as int), e.1))
}

/// Gas for yielding a key of `k` characters and a value of `v` bytes: their
/// sum, or the largest `u64` where the sum does not fit.
pub open spec fn gas_of(k: nat, v: nat) -> u64 {
    if k + v <= u64::MAX { (k + v) as u64 } else { u64::MAX }
}

/// Where the subspace of height `h` begins in the key space.
pub open spec fn db_prefix_of(h: nat) -> Seq<char> {
    join_segs(seq![decimal(h), subspace_seg()]) + seq!['/']
}

impl<'a> MockPrefixIterator<'a> {
    pub closed spec fn wf(&self) -> bool {
        &&& self.iter.wf()
        &&& starts(self.db_prefix@, self.iter.prefix@)
    }

    /// The entries still to come: key relative to the subspace, and value.
    pub closed spec fn remaining(&self) -> Seq<(Seq<char>, Seq<u8>)> {
        strip_keys(self.iter.rest(), self.db_prefix@.len())
    }

    /// The next entry, its key relative to the subspace, and its gas.
    pub fn next(&mut self) -> (r: Option<(String, Vec<u8>, u64)>)
        requires
            old(self).wf(),
        ensures
            final(self).wf(),
            r is None ==> old(self).remaining().len() == 0 && final(self).remaining() == old(self).remaining(),
            r matches Some(e) ==> old(self).remaining().len() > 0 && old(self).remaining()[0] == (e.0@, e.1@)
                && final(self).remaining() == old(self).remaining().drop_first()
                && e.2 == gas_of(e.0@.len(), e.1@.len()),
    {
        match self.iter.next() {
            Some((key, val)) => {
                let ghost n = self.db_prefix@.len();
                let start = self.db_prefix.as_str().unicode_len();
                let len = key.as_str().unicode_len();
                assert(self.db_prefix@.len() <= self.iter.prefix@.len() <= key@.len());
                let k = key.as_str().substring_char(start, len).to_owned();
                assert(k@ =~= key@.skip(n as int));
                assert(self.remaining() =~= old(self).remaining().drop_first());
                let kl = k.as_str().unicode_len() as u64;
                let vl = val.len() as u64;
                let gas = if kl <= u64::MAX - vl { kl + vl } else { u64::MAX };
                Some((k, val, gas))
            },
            None => None,
        }
    }

    /// Every entry still to come, in order.
    pub fn collect_entries(&mut self) -> (r: Vec<(String, Vec<u8>, u64)>)
        requires
            old(self).wf(),
        ensures
            r@.len() == old(self).remaining().len(),
            forall|i: int| 0 <= i < r@.len() ==> (#[trigger] r@[i]).0@ == old(self).remaining()[i].0
                && r@[i].1@ == old(self).remaining()[i].1
                && r@[i].2 == gas_of(r@[i].0@.len(), r@[i].1@.len()),
    {
        let mut r: Vec<(String, Vec<u8>, u64)> = Vec::new();
        let ghost all = self.remaining();
        assert(all == old(self).remaining());
        assert(all.skip(0) =~= all);
        loop
            invariant
                self.wf(),
                r@.len() + self.remaining().len() == all.len(),
                self.remaining() == all.skip(r@.len() as int),
                all == old(self).remaining(),
                forall|i: int| 0 <= i < r@.len() ==> (#[trigger] r@[i]).0@ == all[i].0
                    && r@[i].1@ == all[i].1
                    && r@[i].2 == gas_of(r@[i].0@.len(), r@[i].1@.len()),
            decreases self.remaining().len(),
        {
            let ghost before = self.remaining();
            match self.next() {
                Some(e) => {
                    assert(before[0] == all[r@.len() as int]);
                    r.push(e);
                    assert(self.remaining() =~= all.skip(r@.len() as int));
                },
                None => {
                    assert(before.len() == 0);
                    assert(r@.len() == all.len());
                    return r;
                },
            }
        }
    }
}

impl MockDB {
    /// The subspace entries of height `height` whose keys, relative to the
    /// subspace, begin with the string form of `prefix`; in key order.
    pub fn iter_prefix<'a>(&'a self, height: BlockHeight, prefix: &Key) -> (r: MockPrefixIterator<'a>)
        requires
            self.wf(),
        ensures
            r.wf(),
            forall|a: int, b: int| 0 <= a < b < r.remaining().len() ==> lex_lt(#[trigger] r.remaining()[a].0, #[trigger] r.remaining()[b].0),
            forall|i: int| 0 <= i < r.remaining().len() ==> {
                let k = db_prefix_of(height.0 as nat) + (#[trigger] r.remaining()[i]).0;
                &&& self@.contains_key(k)
                &&& self@[k] == r.remaining()[i].1
                &&& starts(db_prefix_of(height.0 as nat) + join_segs(prefix@), k)
            },
            forall|k: Seq<char>| #[trigger] self@.contains_key(k) && starts(db_prefix_of(height.0 as nat) + join_segs(prefix@), k)
                ==> exists|i: int| 0 <= i < r.remaining().len() && db_prefix_of(height.0 as nat) + #[trigger] r.remaining()[i].0 == k
                    && r.remaining()[i].1 == self@[k],
    {
        proof {
            reveal_strlit("/subspace/");
            reveal_strlit("subspace");
            let d = decimal(height.0 as nat);
            assert(seq![d, subspace_seg()].drop_last() =~= seq![d]);
            assert(join_segs(seq![d]) == d);
            assert(join_segs(seq![d, subspace_seg()]) == d + seq!['/'] + subspace_seg());
            assert(db_prefix_of(height.0 as nat) =~= d + "/subspace/"@);
        }
        let mut db_prefix = height.to_db_key();
        db_prefix.append("/subspace/");
        assert(db_prefix@ =~= db_prefix_of(height.0 as nat));
        let mut full = db_prefix.clone();
        full.append(prefix.to_string().as_str());
        let ghost h = height.0 as nat;
        let ghost fp = full@;
        let ghost n = db_prefix@.len();
        assert(starts(db_prefix@, full@)) by {
            assert(full@.subrange(0, n as int) =~= db_prefix@);
        }
        let r = MockPrefixIterator { iter: MockIterator { prefix: full, db: self, pos: 0 }, db_prefix };
        let ghost s = self.entries@;
        assert(s.skip(0) =~= s);
        proof {
            lemma_hits_sorted(s, fp);
            let hs = hits(s, fp);
            assert(r.remaining() == strip_keys(hs, n));
            assert forall|i: int| 0 <= i < hs.len() implies starts(fp, #[trigger] hs[i].0) && self@.contains_key(hs[i].0) && self@[hs[i].0] == hs[i].1 by {
                lemma_hits_sound(s, fp, i);
                let j = choose|j: int| 0 <= j < s.len() && starts(fp, #[trigger] s[j].0@) && hs[i] == (s[j].0@, s[j].1@);
                lemma_entries_view_at(s, j);
            }
            assert forall|a: int, b: int| 0 <= a < b < r.remaining().len() implies lex_lt(#[trigger] r.remaining()[a].0, #[trigger] r.remaining()[b].0) by {
                assert(starts(fp, hs[a].0) && starts(fp, hs[b].0));
                assert(hs[a].0.subrange(0, n as int) =~= fp.subrange(0, n as int));
                assert(hs[b].0.subrange(0, n as int) =~= fp.subrange(0, n as int));
                lemma_lex_skip(hs[a].0, hs[b].0, n);
            }
            assert forall|i: int| 0 <= i < r.remaining().len() implies {
                let k = db_prefix_of(h) + (#[trigger] r.remaining()[i]).0;
                &&& self@.contains_key(k)
                &&& self@[k] == r.remaining()[i].1
                &&& starts(fp, k)
            } by {
                assert(starts(fp, hs[i].0));
                assert(hs[i].0.subrange(0, n as int) =~= fp.subrange(0, n as int));
                assert(db_prefix_of(h) + hs[i].0.skip(n as int) =~= hs[i].0);
            }
            assert forall|k: Seq<char>| #[trigger] self@.contains_key(k) && starts(fp, k)
                implies exists|i: int| 0 <= i < r.remaining().len() && db_prefix_of(h) + #[trigger] r.remaining()[i].0 == k
                    && r.remaining()[i].1 == self@[k] by {
                let j = key_index(s, k);
                lemma_entries_view_at(s, j);
                lemma_hits_complete(s, fp, j);
                let i = choose|i: int| 0 <= i < hs.len() && #[trigger] hs[i] == (s[j].0@, s[j].1@);
                assert(k.subrange(0, n as int) =~= fp.subrange(0, n as int));
                assert(db_prefix_of(h) + k.skip(n as int) =~= k);
                assert(db_prefix_of(h) + r.remaining()[i].0 == k);
            }
        }
        r
    }
}

/// The error for a stored key that matches no known category.
pub fn unknown_key_error(key: &str) -> (r: Result<(), Error>)
    ensures
        r matches Err(Error::UnknownKey { key: k }) && k@ == key@,
{
    Err(Error::UnknownKey { key: key.to_owned() })
}

/// The kind of a stored path, from its segments.
fn kind_of_segs(segs: &Vec<String>) -> (r: EntryKind)
    ensures
        r == kind_of(strs_view(segs@)),
{
    let ghost sv = strs_view(segs@);
    let n = segs.len();
    if n < 2 {
        return EntryKind::Unknown;
    }
    assert(sv[1] == segs@[1]@);
    let second = &segs[1];
    if n == 3 && *second == String::from_str("tree") {
        assert(sv[2] == segs@[2]@);
        if segs[2] == String::from_str("root") {
            return EntryKind::Root;
        } else if segs[2] == String::from_str("store") {
            return EntryKind::Store;
        }
    }
    proof {
        lemma_layout_segments();
    }
    if n == 2 && *second == String::from_str("hash") {
        EntryKind::Hash
    } else if n == 2 && *second == String::from_str("epoch") {
        EntryKind::Epoch
    } else if *second == String::from_str("subspace") {
        EntryKind::Subspace
    } else if n == 2 && *second == String::from_str("address_gen") {
        EntryKind::AddressGen
    } else {
        EntryKind::Unknown
    }
}

/// The subspace key stored by a path with the segments `segs`: validity
/// predicate keys are rebuilt from their address, other keys from their segments.
fn subspace_key(segs: &Vec<String>) -> (r: Option<Key>)
    requires
        segs@.len() >= 2,
    ensures
        r is Some <==> subspace_key_ok(strs_view(segs@).skip(2)),
        r matches Some(k) ==> k@ == strs_view(segs@).skip(2),
{
    let ghost k = strs_view(segs@).skip(2);
    proof {
        reveal_strlit("?");
    }
    let marker = String::from_str("?");
    assert(marker@ =~= vp_marker());
    if segs.len() == 4 && segs[3] == marker {
        assert(k.len() == 2);
        assert(k[1] == segs@[3]@);
        assert(k[0] == segs@[2]@);
        assert(is_vp_path(k));
        let a = segs[2].as_str();
        let n = a.unicode_len();
        if n == 0 || a.get_char(0) != '#' {
            return None;
        }
        let rest = a.substring_char(1, n);
        assert(rest@ =~= k[0].drop_first());
        match Address::decode(rest) {
            Some(addr) => {
                let key = Key::validity_predicate(&addr);
                assert(address_marker() + addr.encoded@ =~= k[0]);
                assert(key@ =~= k);
                Some(key)
            },
            None => None,
        }
    } else {
        assert(!is_vp_path(k)) by {
            if is_vp_path(k) {
                assert(k[1] == segs@[3]@);
            }
        }
        let mut key = Key::empty();
        let mut j: usize = 2;
        while j < segs.len()
            invariant
                2 <= j <= segs@.len(),
                k == strs_view(segs@).skip(2),
                !is_vp_path(k),
                key@ == k.subrange(0, j - 2),
                segs_valid(key@),
            decreases segs@.len() - j,
        {
            assert(k[j - 2] == segs@[j as int]@);
            match key.push(&segs[j]) {
                Ok(next) => {
                    assert(k.subrange(0, j - 1) =~= key@.push(segs@[j as int]@));
                    key = next;
                },
                Err(_) => {
                    assert(!seg_valid(k[j - 2]));
                    return None;
                },
            }
            j = j + 1;
        }
        assert(k.subrange(0, k.len() as int) =~= k);
        Some(key)
    }
}

proof fn lemma_has_key_step(s: Seq<(String, Vec<u8>)>, i: int)
    requires
        0 <= i < s.len(),
    ensures
        forall|p: Seq<char>| #[trigger] has_key(s.subrange(0, i + 1), p) <==> (has_key(s.subrange(0, i), p) || s[i].0@ == p),
{
    assert forall|p: Seq<char>| #[trigger] has_key(s.subrange(0, i + 1), p) <==> (has_key(s.subrange(0, i), p) || s[i].0@ == p) by {
        if has_key(s.subrange(0, i + 1), p) {
            let j = choose|j: int| 0 <= j < i + 1 && #[trigger] s.subrange(0, i + 1)[j].0@ == p;
            if j < i {
                assert(s.subrange(0, i)[j] == s[j]);
            }
        }
        if has_key(s.subrange(0, i), p) {
            let j = choose|j: int| 0 <= j < i && #[trigger] s.subrange(0, i)[j].0@ == p;
            assert(s.subrange(0, i + 1)[j] == s[j]);
        }
        if s[i].0@ == p {
            assert(s.subrange(0, i + 1)[i] == s[i]);
        }
    }
}

pub open spec fn found_blob(o: Option<Vec<u8>>, s: Seq<(String, Vec<u8>)>, i: int, p: Seq<char>, m: Map<Seq<char>, Seq<u8>>) -> bool {
    &&& (o is Some <==> has_key(s.subrange(0, i), p))
    &&& o matches Some(x) ==> m.contains_key(p) && spec_encode_blob(x@) == m[p] && x@.len() <= u64::MAX
}

/// The subspace entries read back: a map of keys that a key may hold, each
/// with the value stored at its subspace path.
proof fn lemma_subspace_map_of(sv: Seq<(Key, Vec<u8>)>, m: Map<Seq<char>, Seq<u8>>, h: nat)
    requires
        forall|t: int| 0 <= t < sv.len() ==> segs_ok(#[trigger] sv[t].0@) && m.contains_key(subspace_path(h, sv[t].0@))
            && sv[t].1@ == m[subspace_path(h, sv[t].0@)],
    ensures
        forall|k: Seq<Seq<char>>| #[trigger] subspace_map(sv).contains_key(k) <==> exists|t: int| 0 <= t < sv.len() && #[trigger] sv[t].0@ == k,
        forall|k: Seq<Seq<char>>| #[trigger] subspace_map(sv).contains_key(k) ==> segs_ok(k) && subspace_map(sv)[k] == m[subspace_path(h, k)],
    decreases sv.len(),
{
    if sv.len() > 0 {
        let init = sv.drop_last();
        assert forall|t: int| 0 <= t < init.len() implies segs_ok(#[trigger] init[t].0@) && m.contains_key(subspace_path(h, init[t].0@))
            && init[t].1@ == m[subspace_path(h, init[t].0@)] by {
            assert(init[t] == sv[t]);
        }
        lemma_subspace_map_of(init, m, h);
        let last = sv[sv.len() - 1];
        assert(segs_ok(last.0@));
        assert(subspace_map(sv) == subspace_map(init).insert(last.0@, last.1@));
        assert forall|k: Seq<Seq<char>>| #[trigger] subspace_map(sv).contains_key(k) <==> exists|t: int| 0 <= t < sv.len() && #[trigger] sv[t].0@ == k by {
            if k == last.0@ {
                assert(sv[sv.len() - 1].0@ == k);
            } else {
                if subspace_map(init).contains_key(k) {
                    let t = choose|t: int| 0 <= t < init.len() && #[trigger] init[t].0@ == k;
                    assert(sv[t] == init[t]);
                }
                if exists|t: int| 0 <= t < sv.len() && #[trigger] sv[t].0@ == k {
                    let t = choose|t: int| 0 <= t < sv.len() && #[trigger] sv[t].0@ == k;
                    assert(t < sv.len() - 1);
                    assert(init[t] == sv[t]);
                    assert(subspace_map(init).contains_key(k));
                }
            }
        }
        assert forall|k: Seq<Seq<char>>| #[trigger] subspace_map(sv).contains_key(k) implies segs_ok(k) && subspace_map(sv)[k] == m[subspace_path(h, k)] by {
            if k != last.0@ {
                assert(subspace_map(init).contains_key(k));
            }
        }
    }
}

impl MockDB {
    /// Reads back the last committed block: none where no block counts as
    /// committed, the block where it can be read back, and an error otherwise.
    pub fn read_last_block(&self) -> (r: Result<Option<BlockState>, Error>)
        requires
            self.wf(),
        ensures
            r matches Ok(None) <==> no_block(self@),
            r matches Ok(Some(_)) <==> block_readable(self@),
            pointers_ok(self@) && !essentials_present(self@, last_height(self@)) ==> r is Err,
            r matches Ok(Some(st)) ==> reads_back_as(self@, st),
    {
        let ghost m = self@;
        let ghost s = self.entries@;
        proof {
            lemma_auto_spec_u64_to_from_le_bytes();
        }
        let height = match self.get(&String::from_str("height")) {
            Some(bytes) => match decode_u64(bytes.as_slice()) {
                Ok(v) => BlockHeight(v),
                Err(e) => return Err(Error::CodingError(e)),
            },
            None => return Ok(None),
        };
        let epoch_start_height = match self.get(&String::from_str("epoch_start_height")) {
            Some(bytes) => match decode_u64(bytes.as_slice()) {
                Ok(v) => BlockHeight(v),
                Err(e) => return Err(Error::CodingError(e)),
            },
            None => return Ok(None),
        };
        let epoch_start_time = match self.get(&String::from_str("epoch_start_time")) {
            Some(bytes) => match decode_time(bytes.as_slice()) {
                Ok(v) => v,
                Err(e) => return Err(Error::CodingError(e)),
            },
            None => return Ok(None),
        };
        let ghost h = height.0 as nat;
        assert(h == last_height(m));
        let hs = height.to_db_key();
        let mut root: Option<Vec<u8>> = None;
        let mut store: Option<Vec<u8>> = None;
        let mut hash: Option<Vec<u8>> = None;
        let mut epoch: Option<u64> = None;
        let mut address_gen: Option<Vec<u8>> = None;
        let mut subspaces: Vec<(Key, Vec<u8>)> = Vec::new();
        let mut i: usize = 0;
        while i < self.entries.len()
            invariant
                self.wf(),
                s == self.entries@,
                m == self@,
                i <= s.len(),
                hs@ == decimal(h),
                pointers_ok(m),
                h == last_height(m),
                height.0 == h,
                spec_encode_u64(epoch_start_height.0) == m[epoch_start_height_key()],
                spec_encode_time(epoch_start_time) == m[epoch_start_time_key()],
                found_blob(root, s, i as int, root_path(h), m),
                found_blob(store, s, i as int, store_path(h), m),
                found_blob(hash, s, i as int, hash_path(h), m),
                found_blob(address_gen, s, i as int, address_gen_path(h), m),
                epoch is Some <==> has_key(s.subrange(0, i as int), epoch_path(h)),
                epoch matches Some(e) ==> m.contains_key(epoch_path(h)) && spec_encode_u64(e) == m[epoch_path(h)],
                forall|j: int| 0 <= j < i && under_height(#[trigger] s[j].0@, h) ==> entry_ok(split_str(s[j].0@), s[j].1@),
                forall|t: int| 0 <= t < subspaces@.len() ==> segs_ok(#[trigger] subspaces@[t].0@)
                    && m.contains_key(subspace_path(h, subspaces@[t].0@))
                    && subspaces@[t].1@ == m[subspace_path(h, subspaces@[t].0@)],
                forall|j: int| 0 <= j < i && under_height(#[trigger] s[j].0@, h) && kind_of(split_str(s[j].0@)) == EntryKind::Subspace
                    ==> exists|t: int| 0 <= t < subspaces@.len() && #[trigger] subspaces@[t].0@ == split_str(s[j].0@).skip(2),
            decreases s.len() - i,
        {
            let path = &self.entries[i].0;
            let bytes = &self.entries[i].1;
            let ghost p = path@;
            proof {
                lemma_entries_view_at(s, i as int);
                lemma_kind_paths(p, h);
                lemma_split_len(p);
                lemma_has_key_step(s, i as int);
            }
            let segs = split_segments(path.as_str());
            assert(strs_view(segs@)[0] == segs@[0]@);
            if segs[0] == hs {
                let kind = kind_of_segs(&segs);
                let ghost bad = !entry_ok(split_str(p), bytes@);
                if kind == EntryKind::Unknown {
                    assert(bad && m.contains_key(p) && under_height(p, h) && !block_readable(m));
                    match unknown_key_error(path.as_str()) {
                        Err(e) => return Err(e),
                        Ok(()) => {},
                    }
                } else if kind == EntryKind::Epoch {
                    match decode_u64(bytes.as_slice()) {
                        Ok(v) => {
                            epoch = Some(v);
                        },
                        Err(e) => {
                            assert(bad && m.contains_key(p) && under_height(p, h) && !block_readable(m));
                            return Err(Error::CodingError(e));
                        },
                    }
                } else if kind == EntryKind::Subspace {
                    match subspace_key(&segs) {
                        Some(k) => {
                            proof {
                                lemma_subspace_key_segs(split_str(p).skip(2));
                            }
                            let ghost old_sv = subspaces@;
                            subspaces.push((k, bytes.clone()));
                            assert forall|j: int| 0 <= j < i + 1 && under_height(#[trigger] s[j].0@, h) && kind_of(split_str(s[j].0@)) == EntryKind::Subspace
                                implies exists|t: int| 0 <= t < subspaces@.len() && #[trigger] subspaces@[t].0@ == split_str(s[j].0@).skip(2) by {
                                if j < i {
                                    let t = choose|t: int| 0 <= t < old_sv.len() && #[trigger] old_sv[t].0@ == split_str(s[j].0@).skip(2);
                                    assert(subspaces@[t] == old_sv[t]);
                                } else {
                                    assert(subspaces@[old_sv.len() as int].0@ == split_str(p).skip(2));
                                }
                            }
                        },
                        None => {
                            assert(bad && m.contains_key(p) && under_height(p, h) && !block_readable(m));
                            return Err(Error::Temporary {
                                error: String::from_str("a subspace key could not be read back from its path"),
                            });
                        },
                    }
                } else {
                    match decode_blob(bytes.as_slice()) {
                        Ok(v) => {
                            if kind == EntryKind::Root {
                                root = Some(v);
                            } else if kind == EntryKind::Store {
                                store = Some(v);
                            } else if kind == EntryKind::Hash {
                                hash = Some(v);
                            } else {
                                address_gen = Some(v);
                            }
                        },
                        Err(e) => {
                            assert(bad && m.contains_key(p) && under_height(p, h) && !block_readable(m));
                            return Err(Error::CodingError(e));
                        },
                    }
                }
            }
            i = i + 1;
        }
        let ghost sv = subspaces@;
        proof {
            lemma_subspace_map_of(sv, m, h);
            assert(s.subrange(0, s.len() as int) =~= s);
        }
        match (root, store, hash, epoch, address_gen) {
            (Some(root), Some(store), Some(hash), Some(epoch), Some(address_gen)) => {
                let st = BlockState {
                    root,
                    store,
                    hash,
                    height,
                    epoch,
                    epoch_start_height,
                    epoch_start_time,
                    subspaces,
                    address_gen,
                };
                proof {
                    assert forall|p: Seq<char>| #[trigger] m.contains_key(p) && under_height(p, h) implies entry_ok(split_str(p), m[p]) by {
                        let j = key_index(s, p);
                        lemma_entries_view_at(s, j);
                    }
                    assert forall|k: Seq<Seq<char>>| segs_ok(k) implies (#[trigger] subspace_map(sv).contains_key(k)
                        <==> m.contains_key(subspace_path(h, k))) by {
                        if m.contains_key(subspace_path(h, k)) {
                            let j = key_index(s, subspace_path(h, k));
                            lemma_subspace_path_kind(h, k);
                            assert(s[j].0@ == subspace_path(h, k));
                        }
                    }
                    assert(st.wf());
                }
                Ok(Some(st))
            },
            _ => {
                proof {
                    if essentials_present(m, h) {
                        assert(has_key(s, root_path(h)));
                        assert(has_key(s, store_path(h)));
                        assert(has_key(s, hash_path(h)));
                        assert(has_key(s, epoch_path(h)));
                        assert(has_key(s, address_gen_path(h)));
                    }
                }
                Err(Error::Temporary { error: String::from_str("essential data could not be read") })
            },
        }
    }
}

} // verus!
