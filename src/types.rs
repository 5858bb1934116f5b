//! Block heights, block states and the storage error type.
use crate::codec::{CodingError, DateTimeUtc};
use crate::key::{Key, KeyError, seg_ok};
use vstd::prelude::*;
use vstd::string::*;

verus! {

/// The decimal digit for `d`, which is below ten.
pub open spec fn digit(d: nat) -> char {
    if d == 0 { '0' }
    else if d == 1 { '1' }
    else if d == 2 { '2' }
    else if d == 3 { '3' }
    else if d == 4 { '4' }
    else if d == 5 { '5' }
    else if d == 6 { '6' }
    else if d == 7 { '7' }
    else if d == 8 { '8' }
    else { '9' }
}

/// The decimal form of `n`, without leading zeros.
pub open spec fn decimal(n: nat) -> Seq<char>
    decreases n,
{
    if n < 10 {
        seq![digit(n)]
    } else {
        decimal(n / 10).push(digit(n % 10))
    }
}

pub proof fn lemma_decimal_seg(n: nat)
    ensures
        seg_ok(decimal(n)),
    decreases n,
{
    if n >= 10 {
        lemma_decimal_seg(n / 10);
        let d = decimal(n);
        assert forall|i: int| 0 <= i < d.len() implies d[i] != '/' by {
            if i < d.len() - 1 {
                assert(d[i] == decimal(n / 10)[i]);
            }
        }
    }
}

pub proof fn lemma_decimal_injective(n: nat, m: nat)
    requires
        decimal(n) == decimal(m),
    ensures
        n == m,
    decreases n,
{
    lemma_decimal_seg(n);
    lemma_decimal_seg(m);
    if n >= 10 && m >= 10 {
        lemma_decimal_seg(n / 10);
        lemma_decimal_seg(m / 10);
        assert(decimal(n).drop_last() == decimal(n / 10));
        assert(decimal(m).drop_last() == decimal(m / 10));
        lemma_decimal_injective(n / 10, m / 10);
        assert(decimal(n).last() == digit(n % 10));
        assert(decimal(m).last() == digit(m % 10));
        assert(n % 10 == m % 10);
        assert(n == 10 * (n / 10) + n % 10);
        assert(m == 10 * (m / 10) + m % 10);
    } else if n >= 10 {
        lemma_decimal_seg(n / 10);
        assert(decimal(n).len() >= 2);
    } else if m >= 10 {
        lemma_decimal_seg(m / 10);
        assert(decimal(m).len() >= 2);
    } else {
        assert(decimal(n)[0] == digit(n));
        assert(decimal(m)[0] == digit(m));
    }
}

fn digit_str(d: u64) -> (r: &'static str)
    requires
        d < 10,
    ensures
        r@ == seq![digit(d as nat)],
{
    proof {
        reveal_strlit("0");
        reveal_strlit("1");
        reveal_strlit("2");
        reveal_strlit("3");
        reveal_strlit("4");
        reveal_strlit("5");
        reveal_strlit("6");
        reveal_strlit("7");
        reveal_strlit("8");
        reveal_strlit("9");
    }
    if d == 0 { "0" }
    else if d == 1 { "1" }
    else if d == 2 { "2" }
    else if d == 3 { "3" }
    else if d == 4 { "4" }
    else if d == 5 { "5" }
    else if d == 6 { "6" }
    else if d == 7 { "7" }
    else if d == 8 { "8" }
    else { "9" }
}

/// The decimal form of `n`.
pub fn decimal_string(n: u64) -> (r: String)
    ensures
        r@ == decimal(n as nat),
    decreases n,
{
    if n < 10 {
        String::from_str(digit_str(n))
    } else {
        let mut s = decimal_string(n / 10);
        s.append(digit_str(n % 10));
        s
    }
}

/// The height of a committed block, counted from zero.
#[derive(Debug, Clone, Copy, PartialEq, Eq, Structural)]
pub struct BlockHeight(pub u64);

impl BlockHeight {
    pub fn raw(&self) -> (r: u64)
        ensures
            r == self.0,
    {
        self.0
    }

    /// The height after this one.
    pub fn next_height(&self) -> (r: BlockHeight)
        requires
            self.0 < u64::MAX,
        ensures
            r.0 == self.0 + 1,
    {
        BlockHeight(self.0 + 1)
    }

    /// The key segment of this height: its decimal form.
    pub fn to_db_key(&self) -> (r: String)
        ensures
            r@ == decimal(self.0 as nat),
    {
        decimal_string(self.0)
    }
}

/// What storage can fail with.
#[derive(Debug, Clone)]
pub enum Error {
    /// A key segment could not be pushed.
    KeyError(KeyError),
    /// Stored bytes do not decode to the expected type.
    CodingError(CodingError),
    /// A stored key matches no known category.
    UnknownKey { key: String },
    /// A read finished but what it found breaks an invariant of the layout.
    Temporary { error: String },
}

/// The subspace entries as a map; a later entry for a key replaces an earlier one.
pub open spec fn subspace_map(s: Seq<(Key, Vec<u8>)>) -> Map<Seq<Seq<char>>, Seq<u8>>
    decreases s.len(),
{
    if s.len() == 0 {
        Map::empty()
    } else {
        subspace_map(s.drop_last()).insert(s.last().0@, s.last().1@)
    }
}

/// What is committed for one height.
#[derive(Debug, Clone)]
pub struct BlockState {
    /// The Merkle root.
    pub root: Vec<u8>,
    /// The Merkle tree's store.
    pub store: Vec<u8>,
    /// The block hash.
    pub hash: Vec<u8>,
    /// The height that this state belongs to.
    pub height: BlockHeight,
    /// The epoch of this block.
    pub epoch: u64,
    /// The height at which the current epoch began.
    pub epoch_start_height: BlockHeight,
    /// The time at which the current epoch began.
    pub epoch_start_time: DateTimeUtc,
    /// The account and contract state at this height.
    pub subspaces: Vec<(Key, Vec<u8>)>,
    /// The state of the address generator.
    pub address_gen: Vec<u8>,
}

impl BlockState {
    /// Every subspace key can be stored, and every blob's length fits its
    /// eight-byte length prefix.
    pub open spec fn wf(&self) -> bool {
        &&& forall|i: int| 0 <= i < self.subspaces@.len() ==> (#[trigger] self.subspaces@[i]).0.wf()
        &&& self.root@.len() <= u64::MAX
        &&& self.store@.len() <= u64::MAX
        &&& self.hash@.len() <= u64::MAX
        &&& self.address_gen@.len() <= u64::MAX
    }
}

} // verus!
