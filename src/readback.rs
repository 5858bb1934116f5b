//! What committing a block and reading it back give.
use crate::codec::{
    lemma_blob_round_trip, lemma_time_round_trip, lemma_u64_round_trip,
    spec_encode_blob, spec_encode_time, spec_encode_u64,
};
use crate::key::{address_marker, lemma_split_join, seg_ok, segs_ok, split_str, vp_marker};
use crate::layout::{
    address_gen_path, address_gen_seg, block_readable, committed, entry_ok, epoch_path, epoch_seg,
    epoch_start_height_key, epoch_start_time_key, hash_path, hash_seg, height_key, height_path,
    keys_ok, last_height, lemma_global_ne, lemma_height_path_ne, lemma_kind_paths,
    lemma_layout_segments, lemma_read_after_commit, lemma_subspace_path_kind,
    lemma_subspace_path_not_fixed, lemma_subspace_writes_other, no_block, reads_back_as,
    root_path, root_seg, store_path, store_seg, subspace_key_ok, subspace_path, subspace_writes,
    tree_seg, under_height,
};
use crate::types::{decimal, lemma_decimal_seg, subspace_map, BlockState};
use vstd::bytes::lemma_auto_spec_u64_to_from_le_bytes;
use vstd::prelude::*;

verus! {

proof fn lemma_decimal_first_digit(n: nat)
    ensures
        48 <= (decimal(n)[0] as int) <= 57,
    decreases n,
{
    if n >= 10 {
        lemma_decimal_first_digit(n / 10);
        lemma_decimal_seg(n / 10);
        assert(decimal(n)[0] == decimal(n / 10)[0]);
    }
}

/// No global key lies under a height.
proof fn lemma_globals_not_under(h: nat)
    ensures
        !under_height(height_key(), h),
        !under_height(epoch_start_height_key(), h),
        !under_height(epoch_start_time_key(), h),
{
    lemma_layout_segments();
    lemma_decimal_first_digit(h);
    reveal_strlit("height");
    reveal_strlit("epoch_start_height");
    reveal_strlit("epoch_start_time");
    let g1 = height_key();
    let g2 = epoch_start_height_key();
    let g3 = epoch_start_time_key();
    lemma_one_seg(g1);
    lemma_one_seg(g2);
    lemma_one_seg(g3);
    assert(g1[0] != decimal(h)[0]);
    assert(g2[0] != decimal(h)[0]);
    assert(g3[0] != decimal(h)[0]);
}

proof fn lemma_one_seg(g: Seq<char>)
    requires
        seg_ok(g),
    ensures
        split_str(g) == seq![g],
{
    let one = seq![g];
    assert(segs_ok(one)) by {
        assert forall|i: int| 0 <= i < 1 implies seg_ok(#[trigger] one[i]) by {}
    }
    lemma_split_join(one);
}

/// A key stored by subspace writes was stored before, or is the subspace
/// path of one of the written keys.
proof fn lemma_subspace_writes_domain(
    m: Map<Seq<char>, Seq<u8>>,
    h: nat,
    s: Seq<(crate::key::Key, Vec<u8>)>,
    p: Seq<char>,
)
    requires
        subspace_writes(m, h, s).contains_key(p),
    ensures
        m.contains_key(p) || exists|t: int| 0 <= t < s.len() && p == subspace_path(h, #[trigger] s[t].0@),
    decreases s.len(),
{
    if s.len() > 0 {
        let init = s.drop_last();
        if p != subspace_path(h, s.last().0@) {
            lemma_subspace_writes_domain(m, h, init, p);
            if !m.contains_key(p) {
                let t = choose|t: int| 0 <= t < init.len() && p == subspace_path(h, #[trigger] init[t].0@);
                assert(s[t] == init[t]);
            }
        } else {
            assert(p == subspace_path(h, s[s.len() - 1].0@));
        }
    }
}

proof fn lemma_subspace_map_keys(s: Seq<(crate::key::Key, Vec<u8>)>, k: Seq<Seq<char>>)
    requires
        subspace_map(s).contains_key(k),
    ensures
        exists|t: int| 0 <= t < s.len() && #[trigger] s[t].0@ == k,
    decreases s.len(),
{
    let init = s.drop_last();
    if k != s.last().0@ {
        lemma_subspace_map_keys(init, k);
        let t = choose|t: int| 0 <= t < init.len() && #[trigger] init[t].0@ == k;
        assert(s[t] == init[t]);
    } else {
        assert(s[s.len() - 1].0@ == k);
    }
}

proof fn lemma_fixed_rests_ok()
    ensures
        segs_ok(seq![tree_seg(), root_seg()]),
        segs_ok(seq![tree_seg(), store_seg()]),
        segs_ok(seq![hash_seg()]),
        segs_ok(seq![epoch_seg()]),
        segs_ok(seq![address_gen_seg()]),
{
    lemma_layout_segments();
    let a = seq![tree_seg(), root_seg()];
    let b = seq![tree_seg(), store_seg()];
    let c = seq![hash_seg()];
    let d = seq![epoch_seg()];
    let e = seq![address_gen_seg()];
    assert forall|i: int| 0 <= i < 2 implies seg_ok(#[trigger] a[i]) by {}
    assert forall|i: int| 0 <= i < 2 implies seg_ok(#[trigger] b[i]) by {}
    assert forall|i: int| 0 <= i < 1 implies seg_ok(#[trigger] c[i]) by {}
    assert forall|i: int| 0 <= i < 1 implies seg_ok(#[trigger] d[i]) by {}
    assert forall|i: int| 0 <= i < 1 implies seg_ok(#[trigger] e[i]) by {}
}

/// The fixed keys of one height and the global keys are all different.
proof fn lemma_fixed_keys_distinct(h: nat)
    ensures
        root_path(h) != store_path(h) && root_path(h) != hash_path(h) && root_path(h) != epoch_path(h)
            && root_path(h) != address_gen_path(h),
        store_path(h) != hash_path(h) && store_path(h) != epoch_path(h) && store_path(h) != address_gen_path(h),
        hash_path(h) != epoch_path(h) && hash_path(h) != address_gen_path(h),
        epoch_path(h) != address_gen_path(h),
        height_key() != root_path(h) && height_key() != store_path(h) && height_key() != hash_path(h)
            && height_key() != epoch_path(h) && height_key() != address_gen_path(h),
        epoch_start_height_key() != root_path(h) && epoch_start_height_key() != store_path(h)
            && epoch_start_height_key() != hash_path(h) && epoch_start_height_key() != epoch_path(h)
            && epoch_start_height_key() != address_gen_path(h),
        epoch_start_time_key() != root_path(h) && epoch_start_time_key() != store_path(h)
            && epoch_start_time_key() != hash_path(h) && epoch_start_time_key() != epoch_path(h)
            && epoch_start_time_key() != address_gen_path(h),
        height_key() != epoch_start_height_key() && height_key() != epoch_start_time_key()
            && epoch_start_height_key() != epoch_start_time_key(),
{
    lemma_layout_segments();
    lemma_fixed_rests_ok();
    let r = seq![tree_seg(), root_seg()];
    let st = seq![tree_seg(), store_seg()];
    let ha = seq![hash_seg()];
    let ep = seq![epoch_seg()];
    let ag = seq![address_gen_seg()];
    assert(r != st) by { assert(r[1] != st[1]); }
    assert(r != ha && st != ha) by { assert(r.len() != ha.len()); }
    assert(r != ep && st != ep) by { assert(r.len() != ep.len()); }
    assert(r != ag && st != ag) by { assert(r.len() != ag.len()); }
    assert(ha != ep) by { assert(ha[0] != ep[0]); }
    assert(ha != ag) by { assert(ha[0] != ag[0]); }
    assert(ep != ag) by { assert(ep[0] != ag[0]); }
    lemma_height_path_ne(h, r, h, st);
    lemma_height_path_ne(h, r, h, ha);
    lemma_height_path_ne(h, r, h, ep);
    lemma_height_path_ne(h, r, h, ag);
    lemma_height_path_ne(h, st, h, ha);
    lemma_height_path_ne(h, st, h, ep);
    lemma_height_path_ne(h, st, h, ag);
    lemma_height_path_ne(h, ha, h, ep);
    lemma_height_path_ne(h, ha, h, ag);
    lemma_height_path_ne(h, ep, h, ag);
    let gs = seq![height_key(), epoch_start_height_key(), epoch_start_time_key()];
    let rs = seq![r, st, ha, ep, ag];
    assert forall|i: int, j: int| 0 <= i < 3 && 0 <= j < 5 implies #[trigger] gs[i] != height_path(h, #[trigger] rs[j]) by {
        assert(seg_ok(gs[i]));
        assert(segs_ok(rs[j]));
        lemma_global_ne(gs[i], h, rs[j]);
    }
    assert(gs[0] != height_path(h, rs[0]) && gs[0] != height_path(h, rs[1]) && gs[0] != height_path(h, rs[2])
        && gs[0] != height_path(h, rs[3]) && gs[0] != height_path(h, rs[4]));
    assert(gs[1] != height_path(h, rs[0]) && gs[1] != height_path(h, rs[1]) && gs[1] != height_path(h, rs[2])
        && gs[1] != height_path(h, rs[3]) && gs[1] != height_path(h, rs[4]));
    assert(gs[2] != height_path(h, rs[0]) && gs[2] != height_path(h, rs[1]) && gs[2] != height_path(h, rs[2])
        && gs[2] != height_path(h, rs[3]) && gs[2] != height_path(h, rs[4]));
}

/// The stored value of each fixed key after a block is committed.
proof fn lemma_committed_fixed(m: Map<Seq<char>, Seq<u8>>, st: BlockState)
    requires
        st.wf(),
    ensures
        ({
            let mc = committed(m, st);
            let h = st.height.0 as nat;
            &&& mc.contains_key(height_key()) && mc[height_key()] == spec_encode_u64(st.height.0)
            &&& mc.contains_key(epoch_start_height_key()) && mc[epoch_start_height_key()] == spec_encode_u64(st.epoch_start_height.0)
            &&& mc.contains_key(epoch_start_time_key()) && mc[epoch_start_time_key()] == spec_encode_time(st.epoch_start_time)
            &&& mc.contains_key(root_path(h)) && mc[root_path(h)] == spec_encode_blob(st.root@)
            &&& mc.contains_key(store_path(h)) && mc[store_path(h)] == spec_encode_blob(st.store@)
            &&& mc.contains_key(hash_path(h)) && mc[hash_path(h)] == spec_encode_blob(st.hash@)
            &&& mc.contains_key(epoch_path(h)) && mc[epoch_path(h)] == spec_encode_u64(st.epoch)
            &&& mc.contains_key(address_gen_path(h)) && mc[address_gen_path(h)] == spec_encode_blob(st.address_gen@)
        }),
{
    let h = st.height.0 as nat;
    lemma_fixed_keys_distinct(h);
    let m1 = m.insert(epoch_start_height_key(), spec_encode_u64(st.epoch_start_height.0)).insert(
        epoch_start_time_key(),
        spec_encode_time(st.epoch_start_time),
    ).insert(root_path(h), spec_encode_blob(st.root@)).insert(
        store_path(h),
        spec_encode_blob(st.store@),
    ).insert(hash_path(h), spec_encode_blob(st.hash@)).insert(
        epoch_path(h),
        spec_encode_u64(st.epoch),
    );
    assert(keys_ok(st.subspaces@)) by {
        assert forall|i: int| 0 <= i < st.subspaces@.len() implies segs_ok(#[trigger] st.subspaces@[i].0@) by {
            assert(st.subspaces@[i].0.wf());
        }
    }
    let fixed = seq![epoch_start_height_key(), epoch_start_time_key(), root_path(h), store_path(h), hash_path(h), epoch_path(h)];
    assert forall|i: int| 0 <= i < 6 implies forall|k: Seq<Seq<char>>| segs_ok(k) ==> #[trigger] fixed[i] != #[trigger] subspace_path(h, k) by {
        assert forall|k: Seq<Seq<char>>| segs_ok(k) implies fixed[i] != #[trigger] subspace_path(h, k) by {
            lemma_subspace_path_not_fixed(h, k, h);
        }
    }
    assert forall|i: int| 0 <= i < 6 implies #[trigger] subspace_writes(m1, h, st.subspaces@).contains_key(fixed[i])
        && subspace_writes(m1, h, st.subspaces@)[fixed[i]] == m1[fixed[i]] by {
        assert forall|k: Seq<Seq<char>>| segs_ok(k) implies fixed[i] != #[trigger] subspace_path(h, k) by {
            lemma_subspace_path_not_fixed(h, k, h);
        }
        lemma_subspace_writes_other(m1, h, st.subspaces@, fixed[i]);
    }
    let m2 = subspace_writes(m1, h, st.subspaces@);
    assert(m2.contains_key(fixed[0]) && m2[fixed[0]] == m1[fixed[0]]);
    assert(m2.contains_key(fixed[1]) && m2[fixed[1]] == m1[fixed[1]]);
    assert(m2.contains_key(fixed[2]) && m2[fixed[2]] == m1[fixed[2]]);
    assert(m2.contains_key(fixed[3]) && m2[fixed[3]] == m1[fixed[3]]);
    assert(m2.contains_key(fixed[4]) && m2[fixed[4]] == m1[fixed[4]]);
    assert(m2.contains_key(fixed[5]) && m2[fixed[5]] == m1[fixed[5]]);
}

/// Committing a block to a key space that holds nothing under its height,
/// with subspace keys that read back, leaves a block that can be read back;
/// and whatever is read back equals the committed block in every field.
pub proof fn lemma_write_read_back(m: Map<Seq<char>, Seq<u8>>, st: BlockState, back: BlockState)
    requires
        st.wf(),
        forall|i: int| 0 <= i < st.subspaces@.len() ==> subspace_key_ok(#[trigger] st.subspaces@[i].0@),
        forall|p: Seq<char>| #[trigger] m.contains_key(p) ==> !under_height(p, st.height.0 as nat),
    ensures
        block_readable(committed(m, st)),
        last_height(committed(m, st)) == st.height.0,
        reads_back_as(committed(m, st), back) ==> {
            &&& back.root@ == st.root@
            &&& back.store@ == st.store@
            &&& back.hash@ == st.hash@
            &&& back.height == st.height
            &&& back.epoch == st.epoch
            &&& back.epoch_start_height == st.epoch_start_height
            &&& back.epoch_start_time == st.epoch_start_time
            &&& back.address_gen@ == st.address_gen@
            &&& subspace_map(back.subspaces@) == subspace_map(st.subspaces@)
        },
{
    let h = st.height.0 as nat;
    let mc = committed(m, st);
    lemma_committed_fixed(m, st);
    lemma_fixed_keys_distinct(h);
    lemma_globals_not_under(h);
    lemma_auto_spec_u64_to_from_le_bytes();
    lemma_u64_round_trip(st.height.0, st.height.0);
    lemma_u64_round_trip(st.epoch_start_height.0, st.epoch_start_height.0);
    lemma_u64_round_trip(st.epoch, st.epoch);
    lemma_time_round_trip(st.epoch_start_time, st.epoch_start_time);
    lemma_blob_round_trip(st.root@, st.root@);
    lemma_blob_round_trip(st.store@, st.store@);
    lemma_blob_round_trip(st.hash@, st.hash@);
    lemma_blob_round_trip(st.address_gen@, st.address_gen@);
    assert(last_height(mc) == h);
    let m1 = m.insert(epoch_start_height_key(), spec_encode_u64(st.epoch_start_height.0)).insert(
        epoch_start_time_key(),
        spec_encode_time(st.epoch_start_time),
    ).insert(root_path(h), spec_encode_blob(st.root@)).insert(
        store_path(h),
        spec_encode_blob(st.store@),
    ).insert(hash_path(h), spec_encode_blob(st.hash@)).insert(
        epoch_path(h),
        spec_encode_u64(st.epoch),
    );
    assert forall|p: Seq<char>| #[trigger] mc.contains_key(p) && under_height(p, last_height(mc)) implies entry_ok(split_str(p), mc[p]) by {
        lemma_kind_paths(p, h);
        if p != root_path(h) && p != store_path(h) && p != hash_path(h) && p != epoch_path(h)
            && p != address_gen_path(h) && p != height_key() {
            assert(subspace_writes(m1, h, st.subspaces@).contains_key(p));
            lemma_subspace_writes_domain(m1, h, st.subspaces@, p);
            if !m1.contains_key(p) {
                let t = choose|t: int| 0 <= t < st.subspaces@.len() && p == subspace_path(h, #[trigger] st.subspaces@[t].0@);
                let k = st.subspaces@[t].0@;
                assert(st.subspaces@[t].0.wf());
                assert(subspace_key_ok(k));
                lemma_subspace_path_kind(h, k);
            } else {
                assert(m.contains_key(p));
            }
        }
    }
    if reads_back_as(mc, back) {
        lemma_u64_round_trip(st.epoch_start_height.0, back.epoch_start_height.0);
        lemma_u64_round_trip(st.epoch, back.epoch);
        lemma_time_round_trip(st.epoch_start_time, back.epoch_start_time);
        lemma_blob_round_trip(st.root@, back.root@);
        lemma_blob_round_trip(st.store@, back.store@);
        lemma_blob_round_trip(st.hash@, back.hash@);
        lemma_blob_round_trip(st.address_gen@, back.address_gen@);
        let bm = subspace_map(back.subspaces@);
        let sm = subspace_map(st.subspaces@);
        assert forall|k: Seq<Seq<char>>| #[trigger] bm.contains_key(k) == sm.contains_key(k) && (bm.contains_key(k) ==> bm[k] == sm[k]) by {
            if sm.contains_key(k) {
                lemma_subspace_map_keys(st.subspaces@, k);
                let t = choose|t: int| 0 <= t < st.subspaces@.len() && #[trigger] st.subspaces@[t].0@ == k;
                assert(st.subspaces@[t].0.wf());
            }
            if bm.contains_key(k) || sm.contains_key(k) {
                assert(segs_ok(k));
                lemma_read_after_commit(m, st, k);
                lemma_subspace_path_kind(h, k);
            }
        }
        assert(bm =~= sm);
    }
}

/// A validity-predicate key committed with a block is read back as exactly
/// that key, with its value.
pub proof fn lemma_vp_key_reads_back(
    m: Map<Seq<char>, Seq<u8>>,
    st: BlockState,
    back: BlockState,
    addr: Seq<char>,
)
    requires
        st.wf(),
        forall|i: int| 0 <= i < st.subspaces@.len() ==> subspace_key_ok(#[trigger] st.subspaces@[i].0@),
        forall|p: Seq<char>| #[trigger] m.contains_key(p) ==> !under_height(p, st.height.0 as nat),
        seg_ok(addr),
        subspace_map(st.subspaces@).contains_key(seq![address_marker() + addr, vp_marker()]),
        reads_back_as(committed(m, st), back),
    ensures
        subspace_map(back.subspaces@).contains_key(seq![address_marker() + addr, vp_marker()]),
        subspace_map(back.subspaces@)[seq![address_marker() + addr, vp_marker()]]
            == subspace_map(st.subspaces@)[seq![address_marker() + addr, vp_marker()]],
{
    lemma_write_read_back(m, st, back);
}

/// Any validity-predicate key of an address is one whose subspace entry reads back.
pub proof fn lemma_vp_key_ok(addr: Seq<char>)
    requires
        seg_ok(addr),
    ensures
        subspace_key_ok(seq![address_marker() + addr, vp_marker()]),
{
    let k = seq![address_marker() + addr, vp_marker()];
    assert(k[0].drop_first() =~= addr);
}

/// An empty key space holds no block, and no subspace read finds anything in it.
pub proof fn lemma_fresh_store(h: nat, k: Seq<Seq<char>>)
    ensures
        no_block(Map::<Seq<char>, Seq<u8>>::empty()),
        !Map::<Seq<char>, Seq<u8>>::empty().contains_key(subspace_path(h, k)),
{
}

} // verus!
