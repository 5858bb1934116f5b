//! The layout of a committed block in the flat key space.
use crate::codec::{is_blob_encoding, spec_encode_blob, spec_encode_time, spec_encode_u64};
use vstd::bytes::spec_u64_from_le_bytes;
use crate::key::{join_segs, lemma_join_split, lemma_split_join, seg_ok, seg_valid, segs_ok, segs_valid, split_str, vp_marker};
use crate::types::{BlockState, decimal, lemma_decimal_injective, lemma_decimal_seg, subspace_map};
use vstd::prelude::*;

verus! {

pub open spec fn tree_seg() -> Seq<char> {
    "tree"@
}

pub open spec fn root_seg() -> Seq<char> {
    "root"@
}

pub open spec fn store_seg() -> Seq<char> {
    "store"@
}

pub open spec fn hash_seg() -> Seq<char> {
    "hash"@
}

pub open spec fn epoch_seg() -> Seq<char> {
    "epoch"@
}

pub open spec fn subspace_seg() -> Seq<char> {
    "subspace"@
}

pub open spec fn address_gen_seg() -> Seq<char> {
    "address_gen"@
}

/// The global key of the latest committed height.
pub open spec fn height_key() -> Seq<char> {
    "height"@
}

/// The global key of the height at which the current epoch began.
pub open spec fn epoch_start_height_key() -> Seq<char> {
    "epoch_start_height"@
}

/// The global key of the time at which the current epoch began.
pub open spec fn epoch_start_time_key() -> Seq<char> {
    "epoch_start_time"@
}

/// The key under height `h` with the segments `rest` after it.
pub open spec fn height_path(h: nat, rest: Seq<Seq<char>>) -> Seq<char> {
    join_segs(seq![decimal(h)] + rest)
}

pub open spec fn root_path(h: nat) -> Seq<char> {
    height_path(h, seq![tree_seg(), root_seg()])
}

pub open spec fn store_path(h: nat) -> Seq<char> {
    height_path(h, seq![tree_seg(), store_seg()])
}

pub open spec fn hash_path(h: nat) -> Seq<char> {
    height_path(h, seq![hash_seg()])
}

pub open spec fn epoch_path(h: nat) -> Seq<char> {
    height_path(h, seq![epoch_seg()])
}

pub open spec fn address_gen_path(h: nat) -> Seq<char> {
    height_path(h, seq![address_gen_seg()])
}

/// Where the subspace entry under key `k` is stored for height `h`.
pub open spec fn subspace_path(h: nat, k: Seq<Seq<char>>) -> Seq<char> {
    height_path(h, seq![subspace_seg()] + k)
}

/// The key space after the subspace entries `s` of height `h` are written in order.
pub open spec fn subspace_writes(
    m: Map<Seq<char>, Seq<u8>>,
    h: nat,
    s: Seq<(crate::key::Key, Vec<u8>)>,
) -> Map<Seq<char>, Seq<u8>>
    decreases s.len(),
{
    if s.len() == 0 {
        m
    } else {
        subspace_writes(m, h, s.drop_last()).insert(subspace_path(h, s.last().0@), s.last().1@)
    }
}

/// The key space after block `st` is committed to `m`: the two global epoch
/// fields, the fields of its height, its subspace entries, and last the
/// global height pointer.
pub open spec fn committed(m: Map<Seq<char>, Seq<u8>>, st: BlockState) -> Map<Seq<char>, Seq<u8>> {
    let h = st.height.0 as nat;
    let m1 = m.insert(epoch_start_height_key(), spec_encode_u64(st.epoch_start_height.0)).insert(
        epoch_start_time_key(),
        spec_encode_time(st.epoch_start_time),
    ).insert(root_path(h), spec_encode_blob(st.root@)).insert(
        store_path(h),
        spec_encode_blob(st.store@),
    ).insert(hash_path(h), spec_encode_blob(st.hash@)).insert(
        epoch_path(h),
        spec_encode_u64(st.epoch),
    );
    subspace_writes(m1, h, st.subspaces@).insert(
        address_gen_path(h),
        spec_encode_blob(st.address_gen@),
    ).insert(height_key(), spec_encode_u64(st.height.0))
}

/// Each fixed segment of the layout is one that a caller may push, and they
/// differ from each other.
pub proof fn lemma_layout_segments()
    ensures
        seg_valid(tree_seg()),
        seg_valid(root_seg()),
        seg_valid(store_seg()),
        seg_valid(hash_seg()),
        seg_valid(epoch_seg()),
        seg_valid(subspace_seg()),
        seg_valid(address_gen_seg()),
        seg_valid(height_key()),
        seg_valid(epoch_start_height_key()),
        seg_valid(epoch_start_time_key()),
        tree_seg() != hash_seg() && tree_seg() != epoch_seg() && tree_seg() != subspace_seg()
            && tree_seg() != address_gen_seg(),
        hash_seg() != epoch_seg() && hash_seg() != subspace_seg() && hash_seg() != address_gen_seg(),
        epoch_seg() != subspace_seg() && epoch_seg() != address_gen_seg(),
        subspace_seg() != address_gen_seg(),
        root_seg() != store_seg(),
        height_key() != epoch_start_height_key() && height_key() != epoch_start_time_key()
            && epoch_start_height_key() != epoch_start_time_key(),
{
    reveal_strlit("tree");
    reveal_strlit("root");
    reveal_strlit("store");
    reveal_strlit("hash");
    reveal_strlit("epoch");
    reveal_strlit("subspace");
    reveal_strlit("address_gen");
    reveal_strlit("height");
    reveal_strlit("epoch_start_height");
    reveal_strlit("epoch_start_time");
    assert(tree_seg()[0] != hash_seg()[0]);
    assert(tree_seg()[0] != epoch_seg()[0]);
    assert(tree_seg()[0] != subspace_seg()[0]);
    assert(tree_seg()[0] != address_gen_seg()[0]);
    assert(hash_seg()[0] != epoch_seg()[0]);
    assert(hash_seg()[0] != subspace_seg()[0]);
    assert(hash_seg()[0] != address_gen_seg()[0]);
    assert(epoch_seg()[0] != subspace_seg()[0]);
    assert(epoch_seg()[0] != address_gen_seg()[0]);
    assert(subspace_seg()[0] != address_gen_seg()[0]);
    assert(root_seg()[1] != store_seg()[1]);
    assert(height_key()[0] != epoch_start_height_key()[0]);
    assert(height_key()[0] != epoch_start_time_key()[0]);
    assert(epoch_start_height_key()[13] != epoch_start_time_key()[13]);
    assert(vp_marker()[0] == '?');
    assert(tree_seg() != vp_marker() && root_seg() != vp_marker() && store_seg() != vp_marker());
    assert(hash_seg() != vp_marker() && epoch_seg() != vp_marker() && subspace_seg() != vp_marker());
    assert(address_gen_seg() != vp_marker() && height_key() != vp_marker());
    assert(epoch_start_height_key() != vp_marker() && epoch_start_time_key() != vp_marker());
}

/// The segments of a path under a height, for a height and segments that a
/// key may hold.
pub proof fn lemma_height_path_segs(h: nat, rest: Seq<Seq<char>>)
    requires
        segs_ok(rest),
    ensures
        segs_ok(seq![decimal(h)] + rest),
        split_str(height_path(h, rest)) == seq![decimal(h)] + rest,
{
    lemma_decimal_seg(h);
    let s = seq![decimal(h)] + rest;
    assert forall|i: int| 0 <= i < s.len() implies seg_ok(#[trigger] s[i]) by {
        if i > 0 {
            assert(s[i] == rest[i - 1]);
        }
    }
    lemma_split_join(s);
}

/// Paths under different heights, or with different segments after the
/// height, differ.
pub proof fn lemma_height_path_ne(h: nat, rest: Seq<Seq<char>>, g: nat, other: Seq<Seq<char>>)
    requires
        segs_ok(rest),
        segs_ok(other),
        h != g || rest != other,
    ensures
        height_path(h, rest) != height_path(g, other),
{
    if height_path(h, rest) == height_path(g, other) {
        lemma_height_path_segs(h, rest);
        lemma_height_path_segs(g, other);
        let a = seq![decimal(h)] + rest;
        let b = seq![decimal(g)] + other;
        assert(a[0] == b[0]);
        lemma_decimal_injective(h, g);
        assert(rest =~= a.subrange(1, a.len() as int));
        assert(other =~= b.subrange(1, b.len() as int));
    }
}

/// A global key of one segment is no path under a height.
pub proof fn lemma_global_ne(k: Seq<char>, h: nat, rest: Seq<Seq<char>>)
    requires
        seg_ok(k),
        segs_ok(rest),
        rest.len() >= 1,
    ensures
        k != height_path(h, rest),
{
    lemma_height_path_segs(h, rest);
    assert(join_segs(seq![k]) == k);
    let one = seq![k];
    assert(segs_ok(one)) by {
        assert forall|i: int| 0 <= i < 1 implies seg_ok(#[trigger] one[i]) by {}
    }
    lemma_split_join(seq![k]);
}

pub open spec fn keys_ok(s: Seq<(crate::key::Key, Vec<u8>)>) -> bool {
    forall|i: int| 0 <= i < s.len() ==> segs_ok(#[trigger] s[i].0@)
}

proof fn lemma_keys_ok_prefix(s: Seq<(crate::key::Key, Vec<u8>)>)
    requires
        s.len() > 0,
        keys_ok(s),
    ensures
        keys_ok(s.drop_last()),
        segs_ok(s.last().0@),
{
    assert forall|i: int| 0 <= i < s.drop_last().len() implies segs_ok(#[trigger] s.drop_last()[i].0@) by {
        assert(s.drop_last()[i] == s[i]);
    }
    assert(segs_ok(s[s.len() - 1].0@));
}

proof fn lemma_subspace_seg_ok(k: Seq<Seq<char>>)
    requires
        segs_ok(k),
    ensures
        segs_ok(seq![subspace_seg()] + k),
{
    lemma_layout_segments();
    let r = seq![subspace_seg()] + k;
    assert forall|i: int| 0 <= i < r.len() implies seg_ok(#[trigger] r[i]) by {
        if i > 0 {
            assert(r[i] == k[i - 1]);
        }
    }
}

/// Subspace writes leave a path alone that is no subspace path of height `h`.
pub proof fn lemma_subspace_writes_other(
    m: Map<Seq<char>, Seq<u8>>,
    h: nat,
    s: Seq<(crate::key::Key, Vec<u8>)>,
    p: Seq<char>,
)
    requires
        keys_ok(s),
        forall|k: Seq<Seq<char>>| segs_ok(k) ==> p != #[trigger] subspace_path(h, k),
    ensures
        subspace_writes(m, h, s).contains_key(p) == m.contains_key(p),
        m.contains_key(p) ==> subspace_writes(m, h, s)[p] == m[p],
    decreases s.len(),
{
    if s.len() > 0 {
        lemma_keys_ok_prefix(s);
        lemma_subspace_writes_other(m, h, s.drop_last(), p);
        assert(p != subspace_path(h, s.last().0@));
    }
}

/// What subspace writes leave under the subspace path of `k`.
pub proof fn lemma_subspace_writes_key(
    m: Map<Seq<char>, Seq<u8>>,
    h: nat,
    s: Seq<(crate::key::Key, Vec<u8>)>,
    k: Seq<Seq<char>>,
)
    requires
        keys_ok(s),
        segs_ok(k),
    ensures
        subspace_writes(m, h, s).contains_key(subspace_path(h, k)) == (subspace_map(s).contains_key(k)
            || m.contains_key(subspace_path(h, k))),
        subspace_map(s).contains_key(k) ==> subspace_writes(m, h, s)[subspace_path(h, k)]
            == subspace_map(s)[k],
        !subspace_map(s).contains_key(k) && m.contains_key(subspace_path(h, k)) ==> subspace_writes(
            m,
            h,
            s,
        )[subspace_path(h, k)] == m[subspace_path(h, k)],
    decreases s.len(),
{
    if s.len() > 0 {
        lemma_keys_ok_prefix(s);
        lemma_subspace_writes_key(m, h, s.drop_last(), k);
        if s.last().0@ != k {
            lemma_subspace_seg_ok(k);
            lemma_subspace_seg_ok(s.last().0@);
            assert(seq![subspace_seg()] + k != seq![subspace_seg()] + s.last().0@) by {
                if seq![subspace_seg()] + k == seq![subspace_seg()] + s.last().0@ {
                    assert(k =~= (seq![subspace_seg()] + k).subrange(1, k.len() as int + 1));
                    assert(s.last().0@ =~= (seq![subspace_seg()] + s.last().0@).subrange(
                        1,
                        s.last().0@.len() as int + 1,
                    ));
                }
            }
            lemma_height_path_ne(h, seq![subspace_seg()] + k, h, seq![subspace_seg()] + s.last().0@);
        }
    }
}

proof fn lemma_fixed_paths_ok()
    ensures
        segs_ok(seq![tree_seg(), root_seg()]),
        segs_ok(seq![tree_seg(), store_seg()]),
        segs_ok(seq![hash_seg()]),
        segs_ok(seq![epoch_seg()]),
        segs_ok(seq![address_gen_seg()]),
{
    lemma_layout_segments();
    let a = seq![tree_seg(), root_seg()];
    let b = seq![tree_seg(), store_seg()];
    let c = seq![hash_seg()];
    let d = seq![epoch_seg()];
    let e = seq![address_gen_seg()];
    assert forall|i: int| 0 <= i < 2 implies seg_ok(#[trigger] a[i]) by {}
    assert forall|i: int| 0 <= i < 2 implies seg_ok(#[trigger] b[i]) by {}
    assert forall|i: int| 0 <= i < 1 implies seg_ok(#[trigger] c[i]) by {}
    assert forall|i: int| 0 <= i < 1 implies seg_ok(#[trigger] d[i]) by {}
    assert forall|i: int| 0 <= i < 1 implies seg_ok(#[trigger] e[i]) by {}
}

/// The subspace path of `k` at height `h` is none of the block fields of
/// height `g` and none of the global keys.
pub proof fn lemma_subspace_path_not_fixed(h: nat, k: Seq<Seq<char>>, g: nat)
    requires
        segs_ok(k),
    ensures
        subspace_path(h, k) != root_path(g),
        subspace_path(h, k) != store_path(g),
        subspace_path(h, k) != hash_path(g),
        subspace_path(h, k) != epoch_path(g),
        subspace_path(h, k) != address_gen_path(g),
        subspace_path(h, k) != height_key(),
        subspace_path(h, k) != epoch_start_height_key(),
        subspace_path(h, k) != epoch_start_time_key(),
{
    lemma_layout_segments();
    lemma_fixed_paths_ok();
    lemma_subspace_seg_ok(k);
    let r = seq![subspace_seg()] + k;
    assert(r[0] == subspace_seg());
    assert(r != seq![tree_seg(), root_seg()]) by { assert(seq![tree_seg(), root_seg()][0] == tree_seg()); }
    assert(r != seq![tree_seg(), store_seg()]) by { assert(seq![tree_seg(), store_seg()][0] == tree_seg()); }
    assert(r != seq![hash_seg()]) by { assert(seq![hash_seg()][0] == hash_seg()); }
    assert(r != seq![epoch_seg()]) by { assert(seq![epoch_seg()][0] == epoch_seg()); }
    assert(r != seq![address_gen_seg()]) by { assert(seq![address_gen_seg()][0] == address_gen_seg()); }
    lemma_height_path_ne(h, r, g, seq![tree_seg(), root_seg()]);
    lemma_height_path_ne(h, r, g, seq![tree_seg(), store_seg()]);
    lemma_height_path_ne(h, r, g, seq![hash_seg()]);
    lemma_height_path_ne(h, r, g, seq![epoch_seg()]);
    lemma_height_path_ne(h, r, g, seq![address_gen_seg()]);
    lemma_global_ne(height_key(), h, r);
    lemma_global_ne(epoch_start_height_key(), h, r);
    lemma_global_ne(epoch_start_time_key(), h, r);
}

/// A subspace read at height `h` sees, after block `st` of the same height is
/// committed, the value that `st` holds for the key, or else what was there before.
pub proof fn lemma_read_after_commit(m: Map<Seq<char>, Seq<u8>>, st: BlockState, k: Seq<Seq<char>>)
    requires
        st.wf(),
        segs_ok(k),
    ensures
        committed(m, st).contains_key(subspace_path(st.height.0 as nat, k)) == (subspace_map(
            st.subspaces@,
        ).contains_key(k) || m.contains_key(subspace_path(st.height.0 as nat, k))),
        subspace_map(st.subspaces@).contains_key(k) ==> committed(m, st)[subspace_path(
            st.height.0 as nat,
            k,
        )] == subspace_map(st.subspaces@)[k],
{
    let h = st.height.0 as nat;
    lemma_subspace_path_not_fixed(h, k, h);
    let m1 = m.insert(epoch_start_height_key(), spec_encode_u64(st.epoch_start_height.0)).insert(
        epoch_start_time_key(),
        spec_encode_time(st.epoch_start_time),
    ).insert(root_path(h), spec_encode_blob(st.root@)).insert(
        store_path(h),
        spec_encode_blob(st.store@),
    ).insert(hash_path(h), spec_encode_blob(st.hash@)).insert(
        epoch_path(h),
        spec_encode_u64(st.epoch),
    );
    assert(keys_ok(st.subspaces@)) by {
        assert forall|i: int| 0 <= i < st.subspaces@.len() implies segs_ok(#[trigger] st.subspaces@[i].0@) by {
            assert(st.subspaces@[i].0.wf());
        }
    }
    lemma_subspace_writes_key(m1, h, st.subspaces@, k);
}

/// A key that block `st` does not hold and that was not stored before reads
/// as absent at the height of `st` after it is committed.
pub proof fn lemma_absent_after_commit(m: Map<Seq<char>, Seq<u8>>, st: BlockState, k: Seq<Seq<char>>)
    requires
        st.wf(),
        segs_ok(k),
        !subspace_map(st.subspaces@).contains_key(k),
        !m.contains_key(subspace_path(st.height.0 as nat, k)),
    ensures
        !committed(m, st).contains_key(subspace_path(st.height.0 as nat, k)),
{
    lemma_read_after_commit(m, st, k);
}

/// Committing a block of another height leaves every subspace read at
/// height `h` as it was.
pub proof fn lemma_historical_isolation(m: Map<Seq<char>, Seq<u8>>, st: BlockState, h: nat, k: Seq<Seq<char>>)
    requires
        st.wf(),
        segs_ok(k),
        st.height.0 as nat != h,
    ensures
        committed(m, st).contains_key(subspace_path(h, k)) == m.contains_key(subspace_path(h, k)),
        m.contains_key(subspace_path(h, k)) ==> committed(m, st)[subspace_path(h, k)] == m[subspace_path(h, k)],
{
    let g = st.height.0 as nat;
    lemma_subspace_path_not_fixed(h, k, g);
    let p = subspace_path(h, k);
    let m1 = m.insert(epoch_start_height_key(), spec_encode_u64(st.epoch_start_height.0)).insert(
        epoch_start_time_key(),
        spec_encode_time(st.epoch_start_time),
    ).insert(root_path(g), spec_encode_blob(st.root@)).insert(
        store_path(g),
        spec_encode_blob(st.store@),
    ).insert(hash_path(g), spec_encode_blob(st.hash@)).insert(
        epoch_path(g),
        spec_encode_u64(st.epoch),
    );
    assert(keys_ok(st.subspaces@)) by {
        assert forall|i: int| 0 <= i < st.subspaces@.len() implies segs_ok(#[trigger] st.subspaces@[i].0@) by {
            assert(st.subspaces@[i].0.wf());
        }
    }
    assert forall|k2: Seq<Seq<char>>| segs_ok(k2) implies p != #[trigger] subspace_path(g, k2) by {
        lemma_subspace_seg_ok(k);
        lemma_subspace_seg_ok(k2);
        lemma_height_path_ne(h, seq![subspace_seg()] + k, g, seq![subspace_seg()] + k2);
    }
    lemma_subspace_writes_other(m1, g, st.subspaces@, p);
}

/// What a stored path under a height holds, by its segments after the height.
#[derive(Debug, Clone, Copy, PartialEq, Eq, Structural)]
pub enum EntryKind {
    Root,
    Store,
    Hash,
    Epoch,
    Subspace,
    AddressGen,
    Unknown,
}

pub open spec fn kind_of(segs: Seq<Seq<char>>) -> EntryKind {
    if segs.len() == 3 && segs[1] == tree_seg() && segs[2] == root_seg() {
        EntryKind::Root
    } else if segs.len() == 3 && segs[1] == tree_seg() && segs[2] == store_seg() {
        EntryKind::Store
    } else if segs.len() == 2 && segs[1] == hash_seg() {
        EntryKind::Hash
    } else if segs.len() == 2 && segs[1] == epoch_seg() {
        EntryKind::Epoch
    } else if segs.len() >= 2 && segs[1] == subspace_seg() {
        EntryKind::Subspace
    } else if segs.len() == 2 && segs[1] == address_gen_seg() {
        EntryKind::AddressGen
    } else {
        EntryKind::Unknown
    }
}

/// The segments of a subspace key that stores a validity predicate: an
/// address segment, then the reserved marker.
pub open spec fn is_vp_path(k: Seq<Seq<char>>) -> bool {
    k.len() == 2 && k[1] == vp_marker()
}

/// A subspace key read back from a stored path: a validity-predicate key
/// whose address segment is the address marker and an address, or else a key
/// whose segments a caller may push.
pub open spec fn subspace_key_ok(k: Seq<Seq<char>>) -> bool {
    if is_vp_path(k) {
        k[0].len() >= 1 && k[0][0] == '#' && seg_ok(k[0].drop_first())
    } else {
        segs_valid(k)
    }
}

/// A stored entry under a height that a block can be read back from.
pub open spec fn entry_ok(segs: Seq<Seq<char>>, bytes: Seq<u8>) -> bool {
    match kind_of(segs) {
        EntryKind::Root | EntryKind::Store | EntryKind::Hash | EntryKind::AddressGen => is_blob_encoding(bytes),
        EntryKind::Epoch => bytes.len() == 8,
        EntryKind::Subspace => subspace_key_ok(segs.skip(2)),
        EntryKind::Unknown => false,
    }
}

/// The first segment of path `p` is height `h`.
pub open spec fn under_height(p: Seq<char>, h: nat) -> bool {
    split_str(p)[0] == decimal(h)
}

/// The three global fields are stored and have the lengths that decode.
pub open spec fn pointers_ok(m: Map<Seq<char>, Seq<u8>>) -> bool {
    &&& m.contains_key(height_key()) && m[height_key()].len() == 8
    &&& m.contains_key(epoch_start_height_key()) && m[epoch_start_height_key()].len() == 8
    &&& m.contains_key(epoch_start_time_key()) && m[epoch_start_time_key()].len() == 12
}

/// No block counts as committed: the height pointer is missing, or, with the
/// fields before it decoding, one of the epoch fields is.
pub open spec fn no_block(m: Map<Seq<char>, Seq<u8>>) -> bool {
    ||| !m.contains_key(height_key())
    ||| m[height_key()].len() == 8 && !m.contains_key(epoch_start_height_key())
    ||| m[height_key()].len() == 8 && m[epoch_start_height_key()].len() == 8 && !m.contains_key(epoch_start_time_key())
}

/// The height that the global pointer names.
pub open spec fn last_height(m: Map<Seq<char>, Seq<u8>>) -> nat {
    spec_u64_from_le_bytes(m[height_key()]) as nat
}

/// Every field that a block must have is stored under height `h`.
pub open spec fn essentials_present(m: Map<Seq<char>, Seq<u8>>, h: nat) -> bool {
    &&& m.contains_key(root_path(h))
    &&& m.contains_key(store_path(h))
    &&& m.contains_key(hash_path(h))
    &&& m.contains_key(epoch_path(h))
    &&& m.contains_key(address_gen_path(h))
}

/// The last committed block can be read back: the global fields decode,
/// every essential field is there, and every entry under its height is one
/// that reads back.
pub open spec fn block_readable(m: Map<Seq<char>, Seq<u8>>) -> bool {
    &&& pointers_ok(m)
    &&& essentials_present(m, last_height(m))
    &&& forall|p: Seq<char>| #[trigger] m.contains_key(p) && under_height(p, last_height(m)) ==> entry_ok(split_str(p), m[p])
}

/// How the kind of a stored path relates to the paths of the layout.
pub proof fn lemma_kind_paths(p: Seq<char>, h: nat)
    ensures
        (under_height(p, h) && kind_of(split_str(p)) == EntryKind::Root) <==> p == root_path(h),
        (under_height(p, h) && kind_of(split_str(p)) == EntryKind::Store) <==> p == store_path(h),
        (under_height(p, h) && kind_of(split_str(p)) == EntryKind::Hash) <==> p == hash_path(h),
        (under_height(p, h) && kind_of(split_str(p)) == EntryKind::Epoch) <==> p == epoch_path(h),
        (under_height(p, h) && kind_of(split_str(p)) == EntryKind::AddressGen) <==> p == address_gen_path(h),
        (under_height(p, h) && kind_of(split_str(p)) == EntryKind::Subspace) ==> p == subspace_path(
            h,
            split_str(p).skip(2),
        ),
{
    lemma_layout_segments();
    lemma_fixed_paths_ok();
    lemma_join_split(p);
    let sp = split_str(p);
    let d = decimal(h);
    lemma_height_path_segs(h, seq![tree_seg(), root_seg()]);
    lemma_height_path_segs(h, seq![tree_seg(), store_seg()]);
    lemma_height_path_segs(h, seq![hash_seg()]);
    lemma_height_path_segs(h, seq![epoch_seg()]);
    lemma_height_path_segs(h, seq![address_gen_seg()]);
    if under_height(p, h) {
        if sp.len() == 3 {
            assert(sp =~= seq![d] + seq![sp[1], sp[2]]);
        }
        if sp.len() == 2 {
            assert(sp =~= seq![d] + seq![sp[1]]);
        }
        if kind_of(sp) == EntryKind::Subspace {
            assert(sp =~= seq![d] + (seq![subspace_seg()] + sp.skip(2)));
        }
    }
}

/// The subspace path of a key is a subspace entry under its height, whose
/// segments after the subspace segment are the key.
pub proof fn lemma_subspace_path_kind(h: nat, k: Seq<Seq<char>>)
    requires
        segs_ok(k),
    ensures
        under_height(subspace_path(h, k), h),
        kind_of(split_str(subspace_path(h, k))) == EntryKind::Subspace,
        split_str(subspace_path(h, k)).skip(2) == k,
{
    lemma_layout_segments();
    lemma_subspace_seg_ok(k);
    lemma_height_path_segs(h, seq![subspace_seg()] + k);
    let sp = split_str(subspace_path(h, k));
    assert(sp.skip(2) =~= k);
    assert(sp[1] == subspace_seg());
    assert(tree_seg() != subspace_seg() && hash_seg() != subspace_seg() && epoch_seg() != subspace_seg());
}

/// A subspace key that reads back holds only segments that a key may hold.
pub proof fn lemma_subspace_key_segs(k: Seq<Seq<char>>)
    requires
        subspace_key_ok(k),
    ensures
        segs_ok(k),
{
    reveal_strlit("?");
    if is_vp_path(k) {
        let a = k[0];
        assert(a =~= seq![a[0]] + a.drop_first());
        assert forall|j: int| 0 <= j < a.len() implies a[j] != '/' by {
            if j > 0 {
                assert(a[j] == a.drop_first()[j - 1]);
            }
        }
        assert(seg_ok(k[1]));
        assert forall|i: int| 0 <= i < k.len() implies seg_ok(#[trigger] k[i]) by {}
    } else {
        assert forall|i: int| 0 <= i < k.len() implies seg_ok(#[trigger] k[i]) by {
            assert(seg_valid(k[i]));
        }
    }
}

/// `st` is what reading back the last block of `m` gives: its fields are
/// the values stored for them, and its subspace entries are exactly the
/// subspace entries stored under its height.
pub open spec fn reads_back_as(m: Map<Seq<char>, Seq<u8>>, st: BlockState) -> bool {
    let h = last_height(m);
    &&& st.wf()
    &&& st.height.0 == h
    &&& spec_encode_u64(st.height.0) == m[height_key()]
    &&& spec_encode_u64(st.epoch_start_height.0) == m[epoch_start_height_key()]
    &&& spec_encode_time(st.epoch_start_time) == m[epoch_start_time_key()]
    &&& spec_encode_blob(st.root@) == m[root_path(h)]
    &&& spec_encode_blob(st.store@) == m[store_path(h)]
    &&& spec_encode_blob(st.hash@) == m[hash_path(h)]
    &&& spec_encode_u64(st.epoch) == m[epoch_path(h)]
    &&& spec_encode_blob(st.address_gen@) == m[address_gen_path(h)]
    &&& forall|k: Seq<Seq<char>>| #[trigger] subspace_map(st.subspaces@).contains_key(k) ==> segs_ok(k)
    &&& forall|k: Seq<Seq<char>>| segs_ok(k) ==> (#[trigger] subspace_map(st.subspaces@).contains_key(k)
        <==> m.contains_key(subspace_path(h, k)))
    &&& forall|k: Seq<Seq<char>>| #[trigger] subspace_map(st.subspaces@).contains_key(k)
        ==> subspace_map(st.subspaces@)[k] == m[subspace_path(h, k)]
}

} // verus!
