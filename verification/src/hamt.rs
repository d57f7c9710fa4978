//! The arithmetic of sharded directories: hashed keys, fan-out and name
//! padding.

use crate::ident::word_byte;
use vstd::prelude::*;

verus! {

/// The length of a hashed key in bytes.
pub const HASH_BIT_LENGTH: usize = 8;

/// The deepest level of a sharded directory: the length of a hashed key.
pub const MAX_DEPTH: usize = HASH_BIT_LENGTH;

/// The fan-out of a shard that names none.
pub const DEFAULT_FANOUT: u32 = 256;

/// What can be wrong with a shard.
#[derive(Clone, Copy, PartialEq, Eq, Structural, Debug)]
pub enum Error {
    /// The shard's names are hashed with another function than murmur3.
    HamtOnlyMurmur3,
    /// The shard's fan-out is zero.
    FanoutMustBeNonZero,
    /// A lookup went deeper than a hashed key is long.
    MaxDepthReached,
    /// More than eight bits, or none, were asked of a hashed key at once.
    InvalidHashBitLen,
}

/// The hash functions that a shard can name.
#[derive(Clone, Copy, PartialEq, Eq, Structural, Debug)]
pub enum HamtHashFunction {
    Unknown,
    Murmur3,
}

/// The first 64-bit lane of the 128-bit murmur3 hash (x64 variant, seed 0)
/// of a byte string.
pub uninterp spec fn murmur3_h1(key: Seq<u8>) -> u64;

/// `fastmurmur3::hash`: the 128-bit murmur3 hash of `key` with seed 0. The
/// function lays its two 64-bit lanes out in memory one after the other and
/// reads them back as one number, so the first eight bytes of the result in
/// memory order are the first lane on every machine; this is the lane taken
/// here.
#[verifier::external_body]
fn murmur3_first_lane(key: &[u8]) -> (h1: u64)
    ensures
        h1 == murmur3_h1(key@),
{
    let full = fastmurmur3::hash(key);
    let bytes = full.to_ne_bytes();
    u64::from_ne_bytes([
        bytes[0], bytes[1], bytes[2], bytes[3], bytes[4], bytes[5], bytes[6], bytes[7],
    ])
}

/// The eight bytes of `h`, most significant first.
pub open spec fn be_bytes(h: u64) -> Seq<u8> {
    Seq::new(8, |j: int| word_byte(h as int, j) as u8)
}

/// The eight bytes of `h`, most significant first.
pub fn to_be_bytes(h: u64) -> (b: [u8; 8])
    ensures
        b@ == be_bytes(h),
{
    let b: [u8; 8] = [
        ((h / 0x100_0000_0000_0000) % 256) as u8,
        ((h / 0x1_0000_0000_0000) % 256) as u8,
        ((h / 0x100_0000_0000) % 256) as u8,
        ((h / 0x1_0000_0000) % 256) as u8,
        ((h / 0x100_0000) % 256) as u8,
        ((h / 0x1_0000) % 256) as u8,
        ((h / 0x100) % 256) as u8,
        (h % 256) as u8,
    ];
    assert(b@ =~= be_bytes(h));
    b
}

/// The hashed form of a name: the first lane of its murmur3 hash, most
/// significant byte first.
pub fn hash_key(key: &[u8]) -> (h: [u8; 8])
    ensures
        h@ == be_bytes(murmur3_h1(key@)),
{
    to_be_bytes(murmur3_first_lane(key))
}

/// The whole part of the binary logarithm of `x`.
pub open spec fn log2_of(x: nat) -> nat
    decreases x,
{
    if x <= 1 {
        0
    } else {
        1 + log2_of(x / 2)
    }
}

/// The whole part of the binary logarithm of `x`, for `x` above zero.
pub fn log2(x: u32) -> (r: u32)
    requires
        x > 0,
    ensures
        r == log2_of(x as nat),
        r < 32,
{
    let mut r: u32 = 0;
    let mut y: u32 = x;
    while y > 1
        invariant
            y >= 1,
            r + log2_of(y as nat) == log2_of(x as nat),
            r <= 31,
            y as int * pow2_of(r as nat) <= u32::MAX,
        decreases y,
    {
        proof {
            lemma_pow2_of_grows(r as nat);
            assert(pow2_of((r + 1) as nat) == 2 * pow2_of(r as nat));
            assert((y / 2) * (2 * pow2_of(r as nat)) <= y * pow2_of(r as nat)) by (nonlinear_arith)
                requires
                    y >= 0,
                    pow2_of(r as nat) >= 0,
            ;
            if r == 31 {
                assert(pow2_of(31) == 0x8000_0000) by {
                    reveal_with_fuel(pow2_of, 32);
                }
                assert(y as int * pow2_of(31) >= 2 * 0x8000_0000);
            }
        }
        y = y / 2;
        r = r + 1;
    }
    r
}

/// Two to the power `n`.
pub open spec fn pow2_of(n: nat) -> int
    decreases n,
{
    if n == 0 {
        1
    } else {
        2 * pow2_of((n - 1) as nat)
    }
}

proof fn lemma_pow2_of_grows(n: nat)
    ensures
        pow2_of(n) >= 1,
    decreases n,
{
    if n > 0 {
        lemma_pow2_of_grows((n - 1) as nat);
    }
}

/// How many hexadecimal digits `n` has.
pub open spec fn hex_len(n: nat) -> nat
    decreases n,
{
    if n < 16 {
        1
    } else {
        1 + hex_len(n / 16)
    }
}

/// The length of the prefix that a shard with the given fan-out puts before
/// each name: the number of hexadecimal digits of the fan-out less one. A
/// shard that names no fan-out has the default one.
pub fn calculate_padding_len(fanout: Option<u32>) -> (len: usize)
    requires
        fanout != Some(0u32),
    ensures
        len == hex_len(
            (match fanout {
                Some(f) => f,
                None => DEFAULT_FANOUT,
            } - 1) as nat,
        ),
        1 <= len <= 8,
{
    let fanout = match fanout {
        Some(f) => f,
        None => DEFAULT_FANOUT,
    };
    let top: u32 = fanout - 1;
    let mut n: u32 = top;
    let mut len: usize = 1;
    while n >= 16
        invariant
            1 <= len <= 8,
            len + hex_len(n as nat) == 1 + hex_len(top as nat),
            n as int * pow16_of((len - 1) as nat) <= u32::MAX,
        decreases n,
    {
        proof {
            lemma_pow16_of_grows((len - 1) as nat);
            assert(pow16_of(len as nat) == 16 * pow16_of((len - 1) as nat));
            assert((n / 16) * (16 * pow16_of((len - 1) as nat)) <= n * pow16_of(
                (len - 1) as nat,
            )) by (nonlinear_arith)
                requires
                    n >= 0,
                    pow16_of((len - 1) as nat) >= 0,
            ;
            if len == 8 {
                assert(pow16_of(7) == 0x1000_0000) by {
                    reveal_with_fuel(pow16_of, 8);
                }
                assert(n as int * pow16_of(7) >= 16 * 0x1000_0000);
            }
        }
        n = n / 16;
        len = len + 1;
    }
    len
}

/// Sixteen to the power `n`.
pub open spec fn pow16_of(n: nat) -> int
    decreases n,
{
    if n == 0 {
        1
    } else {
        16 * pow16_of((n - 1) as nat)
    }
}

proof fn lemma_pow16_of_grows(n: nat)
    ensures
        pow16_of(n) >= 1,
    decreases n,
{
    if n > 0 {
        lemma_pow16_of_grows((n - 1) as nat);
    }
}

/// The shape of a shard: how many bits of the hashed key pick a child, and
/// how long the prefix of each name is.
#[derive(Clone, Copy, PartialEq, Eq, Structural, Debug)]
pub struct Shape {
    pub bit_width: u32,
    pub padding_len: usize,
}

/// The fan-out that a shard has.
pub open spec fn fanout_of(fanout: Option<u32>) -> u32 {
    match fanout {
        Some(f) => f,
        None => DEFAULT_FANOUT,
    }
}

/// Reads the shape of a shard from the hash function and the fan-out that
/// it names. A shard is refused when its hash function is not murmur3, and
/// otherwise when its fan-out is zero.
pub fn from_node(hash_type: Option<HamtHashFunction>, fanout: Option<u32>) -> (r: Result<Shape, Error>)
    ensures
        hash_type != Some(HamtHashFunction::Murmur3) ==> r == Err::<Shape, Error>(
            Error::HamtOnlyMurmur3,
        ),
        hash_type == Some(HamtHashFunction::Murmur3) && fanout_of(fanout) == 0 ==> r == Err::<
            Shape,
            Error,
        >(Error::FanoutMustBeNonZero),
        hash_type == Some(HamtHashFunction::Murmur3) && fanout_of(fanout) > 0 ==> r == Ok::<
            Shape,
            Error,
        >(
            Shape {
                bit_width: log2_of(fanout_of(fanout) as nat) as u32,
                padding_len: hex_len((fanout_of(fanout) - 1) as nat) as usize,
            },
        ),
{
    let murmur = match hash_type {
        Some(HamtHashFunction::Murmur3) => true,
        _ => false,
    };
    if !murmur {
        return Err(Error::HamtOnlyMurmur3);
    }
    let f = match fanout {
        Some(f) => f,
        None => DEFAULT_FANOUT,
    };
    if !(f > 0) {
        return Err(Error::FanoutMustBeNonZero);
    }
    Ok(Shape { bit_width: log2(f), padding_len: calculate_padding_len(Some(f)) })
}

/// Whether a lookup may look at level `depth`: it may below
/// [`MAX_DEPTH`].
pub fn check_depth(depth: usize) -> (r: Result<(), Error>)
    ensures
        r is Ok <==> depth < MAX_DEPTH,
        r is Err ==> r == Err::<(), Error>(Error::MaxDepthReached),
{
    if !(depth < MAX_DEPTH) {
        return Err(Error::MaxDepthReached);
    }
    Ok(())
}

/// Whether the link named `name` in a shard with prefixes of `padding_len`
/// bytes stands for the entry `key`: it does when the name without its
/// prefix is the key. A link without a name stands for the empty key.
pub fn name_matches(name: Option<&[u8]>, padding_len: usize, key: &[u8]) -> (b: bool)
    requires
        name matches Some(n) ==> padding_len <= n@.len(),
    ensures
        b == (key@ == match name {
            Some(n) => n@.subrange(padding_len as int, n@.len() as int),
            None => Seq::<u8>::empty(),
        }),
{
    match name {
        None => {
            assert(key@.len() == 0 ==> key@ =~= Seq::<u8>::empty());
            key.len() == 0
        },
        Some(n) => {
            let ghost tail = n@.subrange(padding_len as int, n@.len() as int);
            let rest = n.len() - padding_len;
            assert(n@.len() <= usize::MAX);
            if key.len() != rest {
                assert(tail.len() == rest);
                return false;
            }
            let mut i: usize = 0;
            while i < rest
                invariant
                    i <= rest,
                    name == Some(n),
                    n@.len() <= usize::MAX,
                    padding_len <= n@.len(),
                    rest == n@.len() - padding_len,
                    key@.len() == rest,
                    tail == n@.subrange(padding_len as int, n@.len() as int),
                    forall|j: int| 0 <= j < i ==> key@[j] == tail[j],
                decreases rest - i,
            {
                assert(tail[i as int] == n@[padding_len + i]);
                if key[i] != n[padding_len + i] {
                    return false;
                }
                i += 1;
            }
            assert(key@ =~= tail);
            true
        },
    }
}

/// Two to the power `k`, for `k` below eight.
fn small_pow2(k: u32) -> (p: u8)
    requires
        k < 8,
    ensures
        p == pow2_of(k as nat),
        p >= 1,
{
    proof {
        reveal_with_fuel(pow2_of, 9);
    }
    if k == 0 {
        1
    } else if k == 1 {
        2
    } else if k == 2 {
        4
    } else if k == 3 {
        8
    } else if k == 4 {
        16
    } else if k == 5 {
        32
    } else if k == 6 {
        64
    } else {
        128
    }
}

/// Bit `i` of the number that `bytes` spell, most significant byte first;
/// bit 0 is the lowest. Bits past the number's length are unset.
pub open spec fn bit_at(bytes: Seq<u8>, i: int) -> bool {
    0 <= i < 8 * bytes.len() && (bytes[bytes.len() - 1 - i / 8] as int / pow2_of((i % 8) as nat)) % 2
        == 1
}

/// How many of the bits below `bp` are set.
pub open spec fn ones_below(bytes: Seq<u8>, bp: int) -> nat
    decreases bp,
{
    if bp <= 0 {
        0
    } else if bit_at(bytes, bp - 1) {
        ones_below(bytes, bp - 1) + 1
    } else {
        ones_below(bytes, bp - 1)
    }
}

/// The set of the slots of a shard that are taken, one bit for each.
#[derive(Clone, Debug, PartialEq, Eq)]
pub struct Bitfield {
    bytes: Vec<u8>,
}

impl View for Bitfield {
    type V = Seq<u8>;

    closed spec fn view(&self) -> Seq<u8> {
        self.bytes@
    }
}

impl Bitfield {
    /// The bitfield that `bytes` spell as one number, most significant
    /// byte first.
    pub fn from_slice(bytes: &[u8]) -> (b: Self)
        ensures
            b@ == bytes@,
    {
        let mut v: Vec<u8> = Vec::new();
        let mut i: usize = 0;
        while i < bytes.len()
            invariant
                i <= bytes@.len(),
                v@ == bytes@.subrange(0, i as int),
            decreases bytes@.len() - i,
        {
            v.push(bytes[i]);
            assert(bytes@.subrange(0, i + 1) == bytes@.subrange(0, i as int).push(bytes@[i as int]));
            i += 1;
        }
        assert(bytes@.subrange(0, bytes@.len() as int) == bytes@);
        Bitfield { bytes: v }
    }

    /// Whether slot `idx` is taken.
    pub fn test_bit(&self, idx: u32) -> (b: bool)
        ensures
            b == bit_at(self@, idx as int),
    {
        let byte = (idx / 8) as usize;
        if byte >= self.bytes.len() {
            return false;
        }
        let value = self.bytes[self.bytes.len() - 1 - byte];
        (value / small_pow2(idx % 8)) % 2 == 1
    }

    /// How many slots below `bp` are taken: the place, among the children
    /// of the shard, of the child in slot `bp`.
    pub fn index_for_bit_pos(&self, bp: u32) -> (n: usize)
        ensures
            n == ones_below(self@, bp as int),
            n <= bp,
    {
        let mut n: usize = 0;
        let mut i: u32 = 0;
        while i < bp
            invariant
                i <= bp,
                n == ones_below(self@, i as int),
                n <= i,
            decreases bp - i,
        {
            if self.test_bit(i) {
                n = n + 1;
            }
            i += 1;
        }
        n
    }
}

/// Bit `k` of a hashed key, counted from the most significant bit of its
/// first byte.
pub open spec fn hash_bit(hash: Seq<u8>, k: int) -> int {
    (hash[k / 8] as int / pow2_of((7 - k % 8) as nat)) % 2
}

/// The number that the `n` bits of a hashed key from bit `from` on spell,
/// most significant bit first.
pub open spec fn bits_value(hash: Seq<u8>, from: int, n: int) -> int
    decreases n,
{
    if n <= 0 {
        0
    } else {
        2 * bits_value(hash, from, n - 1) + hash_bit(hash, from + n - 1)
    }
}

/// A hashed key that is read a few bits at a time.
#[derive(Clone, Copy, Debug)]
pub struct HashBits {
    hash: [u8; 8],
    consumed: u32,
}

impl HashBits {
    /// The hashed key.
    pub closed spec fn hash(&self) -> Seq<u8> {
        self.hash@
    }

    /// How many bits were read.
    pub closed spec fn consumed(&self) -> u32 {
        self.consumed
    }

    /// No more bits are read than the key has.
    pub open spec fn wf(&self) -> bool {
        self.consumed() <= 64 && self.hash().len() == 8
    }

    /// A hashed key of which nothing was read yet.
    pub fn new(hash: [u8; 8]) -> (b: Self)
        ensures
            b.hash() == hash@,
            b.consumed() == 0,
            b.wf(),
    {
        HashBits { hash, consumed: 0 }
    }

    /// Reads the next `i` bits of the key as a number. Between one and
    /// eight bits can be read at a time; reading past the end of the key
    /// fails, and a read that fails reads nothing.
    pub fn next(&mut self, i: u32) -> (r: Result<u32, Error>)
        requires
            old(self).wf(),
        ensures
            final(self).wf(),
            final(self).hash() == old(self).hash(),
            i == 0 || i > 8 ==> r == Err::<u32, Error>(Error::InvalidHashBitLen)
                && final(self).consumed() == old(self).consumed(),
            1 <= i <= 8 && old(self).consumed() + i > 64 ==> r == Err::<u32, Error>(
                Error::MaxDepthReached,
            ) && final(self).consumed() == old(self).consumed(),
            1 <= i <= 8 && old(self).consumed() + i <= 64 ==> r == Ok::<u32, Error>(
                bits_value(old(self).hash(), old(self).consumed() as int, i as int) as u32,
            ) && final(self).consumed() == old(self).consumed() + i,
    {
        if i > 8 || i == 0 {
            return Err(Error::InvalidHashBitLen);
        }
        if self.consumed + i > 64 {
            return Err(Error::MaxDepthReached);
        }
        let from = self.consumed;
        let mut out: u32 = 0;
        let mut k: u32 = 0;
        while k < i
            invariant
                k <= i <= 8,
                from + i <= 64,
                self.hash@.len() == 8,
                out == bits_value(self.hash@, from as int, k as int),
                out < pow2_of(k as nat),
                pow2_of(k as nat) <= 256,
            decreases i - k,
        {
            let at = from + k;
            let byte = self.hash[(at / 8) as usize];
            let bit = (byte / small_pow2(7 - at % 8)) % 2;
            proof {
                assert(pow2_of((k + 1) as nat) == 2 * pow2_of(k as nat));
                lemma_pow2_of_le((k + 1) as u32);
            }
            out = 2 * out + bit as u32;
            k += 1;
        }
        self.consumed = from + i;
        Ok(out)
    }
}

/// Powers of two up to the eighth are at most 256.
proof fn lemma_pow2_of_le(k: u32)
    requires
        k <= 8,
    ensures
        pow2_of(k as nat) <= 256,
{
    reveal_with_fuel(pow2_of, 10);
}

/// Where a lookup goes next.
#[derive(Clone, Copy, PartialEq, Eq, Structural, Debug)]
pub enum Step {
    /// The shard has no entry for the key.
    Absent,
    /// The entry is, or is under, the child at this place.
    Child(usize),
}

/// Takes one step of a lookup in a shard: reads the next `bit_width` bits
/// of the hashed key as the number of a slot; where the slot is taken, the
/// step leads to the child whose place is the number of taken slots below.
/// The lookup fails at a depth that a hashed key does not reach.
pub fn get_value(bitfield: &Bitfield, hashed_key: &mut HashBits, bit_width: u32, depth: usize) -> (r:
    Result<Step, Error>)
    requires
        old(hashed_key).wf(),
    ensures
        final(hashed_key).wf(),
        final(hashed_key).hash() == old(hashed_key).hash(),
        r is Err ==> final(hashed_key).consumed() == old(hashed_key).consumed(),
        depth >= MAX_DEPTH ==> r == Err::<Step, Error>(Error::MaxDepthReached),
        depth < MAX_DEPTH && (bit_width == 0 || bit_width > 8) ==> r == Err::<Step, Error>(
            Error::InvalidHashBitLen,
        ),
        depth < MAX_DEPTH && 1 <= bit_width <= 8 && old(hashed_key).consumed() + bit_width > 64
            ==> r == Err::<Step, Error>(Error::MaxDepthReached),
        depth < MAX_DEPTH && 1 <= bit_width <= 8 && old(hashed_key).consumed() + bit_width <= 64
            ==> ({
            let idx = bits_value(
                old(hashed_key).hash(),
                old(hashed_key).consumed() as int,
                bit_width as int,
            );
            &&& final(hashed_key).consumed() == old(hashed_key).consumed() + bit_width
            &&& r == Ok::<Step, Error>(
                if bit_at(bitfield@, idx) {
                    Step::Child(ones_below(bitfield@, idx) as usize)
                } else {
                    Step::Absent
                },
            )
        }),
{
    if !(depth < MAX_DEPTH) {
        return Err(Error::MaxDepthReached);
    }
    let idx = match hashed_key.next(bit_width) {
        Ok(idx) => idx,
        Err(e) => {
            return Err(e);
        },
    };
    proof {
        lemma_bits_value(old(hashed_key).hash(), old(hashed_key).consumed() as int, bit_width as int);
        lemma_pow2_of_le(bit_width);
    }
    if !bitfield.test_bit(idx) {
        return Ok(Step::Absent);
    }
    Ok(Step::Child(bitfield.index_for_bit_pos(idx)))
}

/// The number that some bits spell is not negative and below two to the
/// number of bits.
pub proof fn lemma_bits_value(hash: Seq<u8>, from: int, n: int)
    requires
        n >= 0,
    ensures
        0 <= bits_value(hash, from, n) < pow2_of(n as nat),
    decreases n,
{
    if n > 0 {
        lemma_bits_value(hash, from, n - 1);
        assert(pow2_of(n as nat) == 2 * pow2_of((n - 1) as nat));
        lemma_pow2_of_grows((7 - (from + n - 1) % 8) as nat);
    }
}

/// One shard: the slots that are taken, and the shape.
#[derive(Clone, Debug, PartialEq, Eq)]
pub struct Node {
    bitfield: Bitfield,
    bit_width: u32,
    padding_len: usize,
}

impl Node {
    /// The slots that are taken.
    pub closed spec fn bitfield(&self) -> Seq<u8> {
        self.bitfield@
    }

    /// The shape of the shard.
    pub closed spec fn shape(&self) -> Shape {
        Shape { bit_width: self.bit_width, padding_len: self.padding_len }
    }

    /// Reads a shard from the hash function and the fan-out that it names
    /// and from its data, the bitfield of taken slots. A shard is refused
    /// when its hash function is not murmur3, and otherwise when its
    /// fan-out is zero.
    pub fn from_node(hash_type: Option<HamtHashFunction>, fanout: Option<u32>, data: &[u8]) -> (r: Result<
        Node,
        Error,
    >)
        ensures
            hash_type != Some(HamtHashFunction::Murmur3) ==> r == Err::<Node, Error>(
                Error::HamtOnlyMurmur3,
            ),
            hash_type == Some(HamtHashFunction::Murmur3) && fanout_of(fanout) == 0 ==> r == Err::<
                Node,
                Error,
            >(Error::FanoutMustBeNonZero),
            hash_type == Some(HamtHashFunction::Murmur3) && fanout_of(fanout) > 0 ==> (r matches Ok(
                n,
            ) && n.bitfield() == data@ && n.shape() == (Shape {
                bit_width: log2_of(fanout_of(fanout) as nat) as u32,
                padding_len: hex_len((fanout_of(fanout) - 1) as nat) as usize,
            })),
    {
        match from_node(hash_type, fanout) {
            Err(e) => Err(e),
            Ok(shape) => Ok(
                Node {
                    bitfield: Bitfield::from_slice(data),
                    bit_width: shape.bit_width,
                    padding_len: shape.padding_len,
                },
            ),
        }
    }

    /// How many bits of a hashed key pick a child.
    pub fn bit_width(&self) -> (w: u32)
        ensures
            w == self.shape().bit_width,
    {
        self.bit_width
    }

    /// How long the prefix of each name is.
    pub fn padding_len(&self) -> (len: usize)
        ensures
            len == self.shape().padding_len,
    {
        self.padding_len
    }

    /// The place, among the children, of the child in slot `bp`.
    pub fn index_for_bit_pos(&self, bp: u32) -> (n: usize)
        ensures
            n == ones_below(self.bitfield(), bp as int),
    {
        self.bitfield.index_for_bit_pos(bp)
    }

    /// Takes one step of a lookup in this shard; see [`get_value`].
    pub fn get_value(&self, hashed_key: &mut HashBits, depth: usize) -> (r: Result<Step, Error>)
        requires
            old(hashed_key).wf(),
        ensures
            final(hashed_key).wf(),
            final(hashed_key).hash() == old(hashed_key).hash(),
            r == lookup_step(
                self.bitfield(),
                old(hashed_key).hash(),
                old(hashed_key).consumed(),
                self.shape().bit_width,
                depth,
            ),
            r is Ok ==> final(hashed_key).consumed() == old(hashed_key).consumed()
                + self.shape().bit_width,
            r is Err ==> final(hashed_key).consumed() == old(hashed_key).consumed(),
    {
        get_value(&self.bitfield, hashed_key, self.bit_width, depth)
    }
}

/// What one step of a lookup gives, for the taken slots `bitfield`, the
/// hashed key `hash` of which `consumed` bits were read, and `bit_width`
/// bits to a slot, at level `depth`.
pub open spec fn lookup_step(bitfield: Seq<u8>, hash: Seq<u8>, consumed: u32, bit_width: u32, depth: usize) -> Result<
    Step,
    Error,
> {
    if depth >= MAX_DEPTH {
        Err(Error::MaxDepthReached)
    } else if bit_width == 0 || bit_width > 8 {
        Err(Error::InvalidHashBitLen)
    } else if consumed + bit_width > 64 {
        Err(Error::MaxDepthReached)
    } else {
        let idx = bits_value(hash, consumed as int, bit_width as int);
        if bit_at(bitfield, idx) {
            Ok(Step::Child(ones_below(bitfield, idx) as usize))
        } else {
            Ok(Step::Absent)
        }
    }
}

/// A sharded directory, known by its root shard.
#[derive(Clone, Debug, PartialEq, Eq)]
pub struct Hamt {
    root: Node,
}

impl Hamt {
    /// The root shard.
    pub closed spec fn root_node(&self) -> Node {
        self.root
    }

    /// Reads a sharded directory from its root shard; see
    /// [`Node::from_node`].
    pub fn from_node(hash_type: Option<HamtHashFunction>, fanout: Option<u32>, data: &[u8]) -> (r: Result<
        Hamt,
        Error,
    >)
        ensures
            hash_type != Some(HamtHashFunction::Murmur3) ==> r == Err::<Hamt, Error>(
                Error::HamtOnlyMurmur3,
            ),
            hash_type == Some(HamtHashFunction::Murmur3) && fanout_of(fanout) == 0 ==> r == Err::<
                Hamt,
                Error,
            >(Error::FanoutMustBeNonZero),
            hash_type == Some(HamtHashFunction::Murmur3) && fanout_of(fanout) > 0 ==> (r matches Ok(
                h,
            ) && h.root_node().bitfield() == data@ && h.root_node().shape() == (Shape {
                bit_width: log2_of(fanout_of(fanout) as nat) as u32,
                padding_len: hex_len((fanout_of(fanout) - 1) as nat) as usize,
            })),
    {
        match Node::from_node(hash_type, fanout, data) {
            Err(e) => Err(e),
            Ok(root) => Ok(Hamt { root }),
        }
    }

    /// The root shard.
    pub fn root(&self) -> (n: &Node)
        ensures
            *n == self.root_node(),
    {
        &self.root
    }

    /// How long the prefix of each name in the root shard is.
    pub fn padding_len(&self) -> (len: usize)
        ensures
            len == self.root_node().shape().padding_len,
    {
        self.root.padding_len
    }

    /// The length of the prefix that a shard with the given fan-out puts
    /// before each name; see [`calculate_padding_len`].
    pub fn calculate_padding_len(fanout: Option<u32>) -> (len: usize)
        requires
            fanout != Some(0u32),
        ensures
            len == hex_len((fanout_of(fanout) - 1) as nat),
    {
        calculate_padding_len(fanout)
    }
}

/// Whether a link of a shard names an entry of the directory: it does when
/// its name is longer than the prefix. A link whose name is only the prefix
/// leads to another shard.
pub fn names_entry(name_len: usize, padding_len: usize) -> (b: bool)
    ensures
        b == (name_len > padding_len),
{
    name_len > padding_len
}

} // verus!
