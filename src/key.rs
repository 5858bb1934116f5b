//! Hierarchical storage keys and their string encoding.
use vstd::prelude::*;
use vstd::string::*;

verus! {

/// The character that joins the segments of a key in its string form.
pub const KEY_SEGMENT_SEPARATOR: char = '/';

/// The first character of an address used as a key segment.
pub const ADDRESS_PREFIX: &'static str = "#";

pub open spec fn sep() -> char {
    '/'
}

pub open spec fn vp_marker() -> Seq<char> {
    seq!['?']
}

pub open spec fn address_marker() -> Seq<char> {
    seq!['#']
}

pub open spec fn no_sep(s: Seq<char>) -> bool {
    forall|i: int| 0 <= i < s.len() ==> s[i] != sep()
}

/// A segment that a key may hold: not empty and free of the separator.
pub open spec fn seg_ok(s: Seq<char>) -> bool {
    s.len() > 0 && no_sep(s)
}

/// A segment that a caller may push: also not the reserved marker.
pub open spec fn seg_valid(s: Seq<char>) -> bool {
    seg_ok(s) && s != vp_marker()
}

pub open spec fn segs_ok(segs: Seq<Seq<char>>) -> bool {
    forall|i: int| 0 <= i < segs.len() ==> seg_ok(#[trigger] segs[i])
}

pub open spec fn segs_no_sep(segs: Seq<Seq<char>>) -> bool {
    forall|i: int| 0 <= i < segs.len() ==> no_sep(#[trigger] segs[i])
}

pub open spec fn segs_valid(segs: Seq<Seq<char>>) -> bool {
    forall|i: int| 0 <= i < segs.len() ==> seg_valid(#[trigger] segs[i])
}

/// The segments joined by the separator.
pub open spec fn join_segs(segs: Seq<Seq<char>>) -> Seq<char>
    decreases segs.len(),
{
    if segs.len() == 0 {
        Seq::empty()
    } else if segs.len() == 1 {
        segs[0]
    } else {
        join_segs(segs.drop_last()) + seq![sep()] + segs.last()
    }
}

/// The pieces of a string between its separators.
pub open spec fn split_str(s: Seq<char>) -> Seq<Seq<char>>
    decreases s.len(),
{
    if s.len() == 0 {
        seq![Seq::empty()]
    } else {
        let p = split_str(s.drop_last());
        if s.last() == sep() {
            p.push(Seq::empty())
        } else {
            p.update(p.len() - 1, p.last().push(s.last()))
        }
    }
}

/// What parsing a string gives: the empty key for the empty string, else its
/// pieces, provided each is a segment that a caller may push.
pub open spec fn spec_parse(s: Seq<char>) -> Option<Seq<Seq<char>>> {
    if s.len() == 0 {
        Some(Seq::empty())
    } else if segs_valid(split_str(s)) {
        Some(split_str(s))
    } else {
        None
    }
}

pub open spec fn strs_view(v: Seq<String>) -> Seq<Seq<char>> {
    v.map_values(|s: String| s@)
}

pub proof fn lemma_split_len(s: Seq<char>)
    ensures
        split_str(s).len() >= 1,
    decreases s.len(),
{
    if s.len() > 0 {
        lemma_split_len(s.drop_last());
    }
}

proof fn lemma_split_append_plain(x: Seq<char>, q: Seq<char>)
    requires
        no_sep(q),
    ensures
        split_str(x + q) == split_str(x).update(
            split_str(x).len() - 1,
            split_str(x).last() + q,
        ),
    decreases q.len(),
{
    lemma_split_len(x);
    if q.len() == 0 {
        assert(x + q == x);
        assert(split_str(x).last() + q == split_str(x).last());
        assert(split_str(x).update(split_str(x).len() - 1, split_str(x).last()) == split_str(x));
    } else {
        let q0 = q.drop_last();
        lemma_split_append_plain(x, q0);
        assert((x + q).drop_last() == x + q0);
        assert((x + q).last() == q.last());
        assert(split_str(x).last() + q0 + seq![q.last()] == split_str(x).last() + q);
        lemma_split_len(x + q0);
        let sx = split_str(x);
        let p = split_str(x + q0);
        assert(q[q.len() - 1] != sep());
        assert(p.len() == sx.len());
        assert(p.last() == sx.last() + q0);
        assert(p.last().push(q.last()) =~= sx.last() + q);
        assert(split_str(x + q) == p.update(p.len() - 1, p.last().push(q.last())));
        assert(split_str(x + q) =~= sx.update(sx.len() - 1, sx.last() + q));
    }
}

proof fn lemma_split_after_sep(x: Seq<char>)
    ensures
        split_str(x + seq![sep()]) == split_str(x).push(Seq::empty()),
{
    assert((x + seq![sep()]).drop_last() == x);
}

/// Splitting the joined segments gives them back.
pub proof fn lemma_split_join(segs: Seq<Seq<char>>)
    requires
        segs.len() >= 1,
        segs_ok(segs),
    ensures
        split_str(join_segs(segs)) == segs,
    decreases segs.len(),
{
    if segs.len() == 1 {
        lemma_split_append_plain(Seq::empty(), segs[0]);
        assert(Seq::<char>::empty() + segs[0] == segs[0]);
        assert(split_str(Seq::empty()) == seq![Seq::<char>::empty()]);
        assert(Seq::<char>::empty() + segs[0] == segs[0]);
        assert(segs == seq![segs[0]]);
    } else {
        let init = segs.drop_last();
        assert(segs_ok(init)) by {
            assert forall|i: int| 0 <= i < init.len() implies seg_ok(#[trigger] init[i]) by {
                assert(init[i] == segs[i]);
            }
        }
        lemma_split_join(init);
        let a = join_segs(init) + seq![sep()];
        lemma_split_after_sep(join_segs(init));
        assert(seg_ok(segs[segs.len() - 1]));
        lemma_split_append_plain(a, segs.last());
        assert(Seq::<char>::empty() + segs.last() == segs.last());
        assert(split_str(join_segs(segs)) =~= segs);
    }
}

/// Joining the pieces of a string gives it back.
pub proof fn lemma_join_split(s: Seq<char>)
    ensures
        join_segs(split_str(s)) == s,
        segs_no_sep(split_str(s)),
    decreases s.len(),
{
    if s.len() == 0 {
        assert(join_segs(seq![Seq::<char>::empty()]) == Seq::<char>::empty());
    } else {
        let t = s.drop_last();
        lemma_join_split(t);
        lemma_split_len(t);
        let p = split_str(t);
        let c = s.last();
        if c == sep() {
            let q = p.push(Seq::empty());
            assert(q.drop_last() =~= p);
            assert(join_segs(q) =~= s);
            assert(segs_no_sep(q)) by {
                assert forall|i: int| 0 <= i < q.len() implies no_sep(#[trigger] q[i]) by {
                    if i < p.len() {
                        assert(q[i] == p[i]);
                    }
                }
            }
        } else {
            let q = p.update(p.len() - 1, p.last().push(c));
            if p.len() == 1 {
                assert(join_segs(p) == p[0]);
                assert(join_segs(q) == q[0]);
                assert(join_segs(q) =~= s);
            } else {
                assert(q.drop_last() =~= p.drop_last());
                assert(join_segs(p) == join_segs(p.drop_last()) + seq![sep()] + p.last());
                assert(q.last() == p.last().push(c));
                assert(join_segs(q) == join_segs(q.drop_last()) + seq![sep()] + q.last());
                assert(s =~= t.push(c));
                assert(join_segs(q) =~= s);
            }
            assert(segs_no_sep(q)) by {
                assert forall|i: int| 0 <= i < q.len() implies no_sep(#[trigger] q[i]) by {
                    if i < p.len() - 1 {
                        assert(q[i] == p[i]);
                    } else {
                        assert(no_sep(p[i]));
                        assert forall|j: int| 0 <= j < q[i].len() implies q[i][j] != sep() by {
                            if j < p[i].len() {
                                assert(q[i][j] == p[i][j]);
                            }
                        }
                    }
                }
            }
        }
    }
}

pub proof fn lemma_join_nonempty(segs: Seq<Seq<char>>)
    requires
        segs.len() >= 1,
        segs_ok(segs),
    ensures
        join_segs(segs).len() > 0,
{
    assert(seg_ok(segs[segs.len() - 1]));
}

/// A copy of each string, in order.
pub fn copy_strings(v: &Vec<String>) -> (r: Vec<String>)
    ensures
        strs_view(r@) == strs_view(v@),
{
    let mut r: Vec<String> = Vec::new();
    let mut i: usize = 0;
    while i < v.len()
        invariant
            i <= v@.len(),
            strs_view(r@) == strs_view(v@.subrange(0, i as int)),
        decreases v@.len() - i,
    {
        r.push(v[i].clone());
        assert(strs_view(v@.subrange(0, i as int + 1)) =~= strs_view(v@.subrange(0, i as int)).push(v@[i as int]@));
        assert(strs_view(r@) =~= strs_view(v@.subrange(0, i as int + 1)));
        i = i + 1;
    }
    assert(v@.subrange(0, v@.len() as int) == v@);
    r
}

/// A segment was pushed that a key cannot hold.
#[derive(Debug, Clone, PartialEq, Eq)]
pub enum KeyError {
    /// The segment is empty.
    EmptySegment,
    /// The segment holds the separator.
    InvalidSegment(String),
    /// The segment is the reserved validity-predicate marker.
    ReservedSegment,
}

/// An opaque account identifier, held in its canonical string encoding.
#[derive(Debug, Clone)]
pub struct Address {
    pub encoded: String,
}

impl Address {
    pub open spec fn wf(&self) -> bool {
        seg_ok(self.encoded@)
    }

    /// Decodes an address from its canonical encoding, which is not empty and
    /// free of the separator.
    pub fn decode(s: &str) -> (r: Option<Address>)
        ensures
            r is Some <==> seg_ok(s@),
            r matches Some(a) ==> a.encoded@ == s@,
    {
        let n = s.unicode_len();
        if n == 0 {
            return None;
        }
        let mut i: usize = 0;
        while i < n
            invariant
                n == s@.len(),
                i <= n,
                forall|j: int| 0 <= j < i ==> s@[j] != sep(),
            decreases n - i,
        {
            if s.get_char(i) == KEY_SEGMENT_SEPARATOR {
                return None;
            }
            i = i + 1;
        }
        Some(Address { encoded: s.to_owned() })
    }

    /// The key segment for this address: the address marker, then its encoding.
    pub fn to_key_seg(&self) -> (r: String)
        ensures
            r@ == address_marker() + self.encoded@,
    {
        proof {
            reveal_strlit("#");
        }
        String::from_str(ADDRESS_PREFIX).concat(self.encoded.as_str())
    }
}

/// A key: a sequence of segments.
#[derive(Debug, Clone)]
pub struct Key {
    pub segments: Vec<String>,
}

impl View for Key {
    type V = Seq<Seq<char>>;

    open spec fn view(&self) -> Seq<Seq<char>> {
        strs_view(self.segments@)
    }
}

impl Key {
    pub open spec fn wf(&self) -> bool {
        segs_ok(self@)
    }

    /// The key of no segments.
    pub fn empty() -> (r: Key)
        ensures
            r@ == Seq::<Seq<char>>::empty(),
    {
        let r = Key { segments: Vec::new() };
        assert(r@ =~= Seq::<Seq<char>>::empty());
        r
    }

    /// The key of one segment, which must be one that a key may hold.
    pub fn from_segment(seg: String) -> (r: Key)
        requires
            seg_ok(seg@),
        ensures
            r@ == seq![seg@],
            r.wf(),
    {
        let mut segments: Vec<String> = Vec::new();
        segments.push(seg);
        let r = Key { segments };
        assert(r@ =~= seq![seg@]);
        r
    }

    /// The key with one more segment at its end; fails on an empty segment, one
    /// that holds the separator, or the reserved marker.
    pub fn push(&self, seg: &String) -> (r: Result<Key, KeyError>)
        ensures
            r is Ok <==> seg_valid(seg@),
            r matches Ok(k) ==> k@ == self@.push(seg@),
    {
        let n = seg.as_str().unicode_len();
        if n == 0 {
            return Err(KeyError::EmptySegment);
        }
        let mut i: usize = 0;
        while i < n
            invariant
                n == seg@.len(),
                i <= n,
                forall|j: int| 0 <= j < i ==> seg@[j] != sep(),
            decreases n - i,
        {
            if seg.as_str().get_char(i) == KEY_SEGMENT_SEPARATOR {
                return Err(KeyError::InvalidSegment(seg.clone()));
            }
            i = i + 1;
        }
        proof {
            reveal_strlit("?");
        }
        if n == 1 && seg.as_str().get_char(0) == '?' {
            assert(seg@ =~= vp_marker());
            return Err(KeyError::ReservedSegment);
        }
        assert(seg@ != vp_marker()) by {
            if seg@ == vp_marker() {
                assert(seg@[0] == '?');
            }
        }
        let mut segments = copy_strings(&self.segments);
        segments.push(seg.clone());
        let r = Key { segments };
        assert(r@ =~= self@.push(seg@));
        Ok(r)
    }
}


/// The pieces of `s` between its separators, in order.
pub fn split_segments(s: &str) -> (r: Vec<String>)
    ensures
        strs_view(r@) == split_str(s@),
{
    let n = s.unicode_len();
    let mut done: Vec<String> = Vec::new();
    let mut start: usize = 0;
    let mut i: usize = 0;
    assert(s@.subrange(0, 0) =~= Seq::<char>::empty());
    assert(strs_view(done@) =~= Seq::<Seq<char>>::empty());
    assert(split_str(Seq::<char>::empty()) == seq![Seq::<char>::empty()]);
    assert(strs_view(done@).push(s@.subrange(0, 0)) =~= split_str(s@.subrange(0, 0)));
    while i < n
        invariant
            n == s@.len(),
            start <= i <= n,
            strs_view(done@).push(s@.subrange(start as int, i as int)) == split_str(
                s@.subrange(0, i as int),
            ),
        decreases n - i,
    {
        let ghost prev = s@.subrange(0, i as int);
        assert(s@.subrange(0, i as int + 1).drop_last() == prev);
        if s.get_char(i) == KEY_SEGMENT_SEPARATOR {
            let piece = s.substring_char(start, i).to_owned();
            done.push(piece);
            assert(strs_view(done@) =~= strs_view(done@.drop_last()).push(piece@));
            assert(s@.subrange(i as int + 1, i as int + 1) =~= Seq::<char>::empty());
            start = i + 1;
        } else {
            assert(s@.subrange(start as int, i as int + 1) =~= s@.subrange(start as int, i as int).push(s@[i as int]));
            proof { lemma_split_len(prev); }
            assert(strs_view(done@).push(s@.subrange(start as int, i as int + 1)) =~=
                split_str(prev).update(split_str(prev).len() - 1, split_str(prev).last().push(s@[i as int])));
        }
        i = i + 1;
    }
    let last = s.substring_char(start, n).to_owned();
    let ghost before = done@;
    done.push(last);
    assert(strs_view(done@) =~= strs_view(before).push(last@));
    assert(s@.subrange(0, n as int) == s@);
    done
}

impl Key {
    /// This key followed by the segments of `other`.
    pub fn join(&self, other: &Key) -> (r: Key)
        ensures
            r@ == self@ + other@,
    {
        let mut segments = copy_strings(&self.segments);
        let mut i: usize = 0;
        while i < other.segments.len()
            invariant
                i <= other@.len(),
                strs_view(segments@) == self@ + other@.subrange(0, i as int),
            decreases other@.len() - i,
        {
            let ghost before = segments@;
            segments.push(other.segments[i].clone());
            assert(strs_view(segments@) =~= strs_view(before).push(other@[i as int]));
            assert(other@.subrange(0, i as int + 1) =~= other@.subrange(0, i as int).push(other@[i as int]));
            assert(self@ + other@.subrange(0, i as int + 1) =~= (self@ + other@.subrange(0, i as int)).push(other@[i as int]));
            i = i + 1;
        }
        assert(other@.subrange(0, other@.len() as int) == other@);
        Key { segments }
    }

    /// The segments joined by the separator.
    pub fn to_string(&self) -> (r: String)
        ensures
            r@ == join_segs(self@),
    {
        let n = self.segments.len();
        if n == 0 {
            return String::new();
        }
        let mut r = self.segments[0].clone();
        assert(self@.subrange(0, 1) =~= seq![self@[0]]);
        let mut i: usize = 1;
        while i < n
            invariant
                n == self@.len(),
                1 <= i <= n,
                r@ == join_segs(self@.subrange(0, i as int)),
            decreases n - i,
        {
            proof {
                reveal_strlit("/");
            }
            r.append("/");
            r.append(self.segments[i].as_str());
            let ghost next = self@.subrange(0, i as int + 1);
            assert(next.drop_last() =~= self@.subrange(0, i as int));
            assert(next.last() == self@[i as int]);
            i = i + 1;
        }
        assert(self@.subrange(0, n as int) == self@);
        r
    }

    /// Parses the string form of a key. The empty string is the empty key;
    /// any other string must split into segments that a caller may push.
    pub fn parse(s: &String) -> (r: Result<Key, KeyError>)
        ensures
            r is Ok <==> spec_parse(s@) is Some,
            r matches Ok(k) ==> spec_parse(s@) == Some(k@),
    {
        let n = s.as_str().unicode_len();
        if n == 0 {
            return Ok(Key::empty());
        }
        let pieces = split_segments(s.as_str());
        assert(s@.len() == n);
        let mut k = Key::empty();
        let mut i: usize = 0;
        while i < pieces.len()
            invariant
                i <= pieces@.len(),
                s@.len() > 0,
                strs_view(pieces@) == split_str(s@),
                k@ == split_str(s@).subrange(0, i as int),
                segs_valid(k@),
            decreases pieces@.len() - i,
        {
            assert(strs_view(pieces@)[i as int] == pieces@[i as int]@);
            match k.push(&pieces[i]) {
                Ok(next) => {
                    assert(split_str(s@).subrange(0, i as int + 1) =~= k@.push(pieces@[i as int]@));
                    k = next;
                },
                Err(e) => {
                    assert(!seg_valid(split_str(s@)[i as int]));
                    assert(!segs_valid(split_str(s@)));
                    assert(s@.len() > 0);
                    assert(spec_parse(s@) is None);
                    return Err(e);
                },
            }
            i = i + 1;
        }
        assert(split_str(s@).subrange(0, pieces@.len() as int) =~= split_str(s@));
        Ok(k)
    }

    /// Whether the first segments of this key are those of `prefix`.
    pub fn starts_with(&self, prefix: &Key) -> (r: bool)
        ensures
            r == (prefix@.len() <= self@.len() && self@.subrange(0, prefix@.len() as int) == prefix@),
    {
        if prefix.segments.len() > self.segments.len() {
            return false;
        }
        let mut i: usize = 0;
        while i < prefix.segments.len()
            invariant
                prefix@.len() <= self@.len(),
                i <= prefix@.len(),
                forall|j: int| 0 <= j < i ==> self@[j] == prefix@[j],
            decreases prefix@.len() - i,
        {
            assert(strs_view(self.segments@)[i as int] == self.segments@[i as int]@);
            assert(strs_view(prefix.segments@)[i as int] == prefix.segments@[i as int]@);
            if self.segments[i] != prefix.segments[i] {
                assert(self@.subrange(0, prefix@.len() as int)[i as int] != prefix@[i as int]);
                return false;
            }
            i = i + 1;
        }
        assert(self@.subrange(0, prefix@.len() as int) =~= prefix@);
        true
    }

    /// The key under which the validity predicate of `addr` is stored: the
    /// address segment, then the reserved marker.
    pub fn validity_predicate(addr: &Address) -> (r: Key)
        ensures
            r@ == seq![address_marker() + addr.encoded@, vp_marker()],
    {
        proof {
            reveal_strlit("?");
        }
        let a = addr.to_key_seg();
        let m = String::from_str("?");
        assert(m@ == vp_marker());
        let mut segments: Vec<String> = Vec::new();
        segments.push(a);
        segments.push(m);
        let r = Key { segments };
        assert(r@ =~= seq![address_marker() + addr.encoded@, vp_marker()]);
        r
    }
}

/// Parsing the string form of a key made of segments that a caller may push
/// gives that key back.
pub proof fn lemma_key_round_trip(k: Seq<Seq<char>>)
    requires
        segs_valid(k),
    ensures
        spec_parse(join_segs(k)) == Some(k),
{
    if k.len() > 0 {
        assert(segs_ok(k)) by {
            assert forall|i: int| 0 <= i < k.len() implies seg_ok(#[trigger] k[i]) by {
                assert(seg_valid(k[i]));
            }
        }
        lemma_join_nonempty(k);
        lemma_split_join(k);
    }
}

/// Pushing a segment that holds the separator always fails.
pub proof fn lemma_push_separator_fails(seg: Seq<char>, i: int)
    requires
        0 <= i < seg.len(),
        seg[i] == sep(),
    ensures
        !seg_valid(seg),
{
}

} // verus!
