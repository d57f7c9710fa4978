//! Identifiers of blocks and peers, held as plain values.
//!
//! Both a content identifier and a peer identifier are built around a
//! multihash. The digest is kept in eight 64-bit words so that an identifier
//! is a small value that can be copied and compared field by field.

use vstd::arithmetic::div_mod::lemma_fundamental_div_mod_converse;
use vstd::prelude::*;

verus! {

/// The longest digest, in bytes, that a [`Multihash`] can hold.
pub const MAX_DIGEST_LEN: usize = 64;

/// A type whose values can be used as keys: copied freely and compared for
/// equality, where equality is equality of all fields.
pub trait Key: Copy {
    fn same(&self, other: &Self) -> (r: bool)
        ensures
            r == (*self == *other),
    ;
}

/// The byte at position `i` of `bytes`, or zero past its end.
pub open spec fn byte_or_zero(bytes: Seq<u8>, i: int) -> int {
    if 0 <= i < bytes.len() {
        bytes[i] as int
    } else {
        0
    }
}

/// The eight bytes of `bytes` that start at `8 * k`, read as one big-endian
/// number, with zero for the bytes past the end.
pub open spec fn packed_word(bytes: Seq<u8>, k: int) -> int {
    byte_or_zero(bytes, 8 * k) * 0x100_0000_0000_0000 + byte_or_zero(bytes, 8 * k + 1)
        * 0x1_0000_0000_0000 + byte_or_zero(bytes, 8 * k + 2) * 0x100_0000_0000 + byte_or_zero(
        bytes,
        8 * k + 3,
    ) * 0x1_0000_0000 + byte_or_zero(bytes, 8 * k + 4) * 0x100_0000 + byte_or_zero(
        bytes,
        8 * k + 5,
    ) * 0x1_0000 + byte_or_zero(bytes, 8 * k + 6) * 0x100 + byte_or_zero(bytes, 8 * k + 7)
}

/// Byte `j` (0 is the most significant) of the 64-bit number `w`.
pub open spec fn word_byte(w: int, j: int) -> int {
    if j == 0 {
        (w / 0x100_0000_0000_0000) % 256
    } else if j == 1 {
        (w / 0x1_0000_0000_0000) % 256
    } else if j == 2 {
        (w / 0x100_0000_0000) % 256
    } else if j == 3 {
        (w / 0x1_0000_0000) % 256
    } else if j == 4 {
        (w / 0x100_0000) % 256
    } else if j == 5 {
        (w / 0x1_0000) % 256
    } else if j == 6 {
        (w / 0x100) % 256
    } else {
        w % 256
    }
}

/// A digest of up to 64 bytes, as eight big-endian words. Bytes past the
/// digest's length are zero.
#[derive(Clone, Copy, PartialEq, Eq, Structural, Hash, Debug)]
pub struct Digest {
    pub w0: u64,
    pub w1: u64,
    pub w2: u64,
    pub w3: u64,
    pub w4: u64,
    pub w5: u64,
    pub w6: u64,
    pub w7: u64,
}

impl Digest {
    /// Word `k` of the digest, for `k` from 0 to 7.
    pub open spec fn word(self, k: int) -> int {
        if k == 0 {
            self.w0 as int
        } else if k == 1 {
            self.w1 as int
        } else if k == 2 {
            self.w2 as int
        } else if k == 3 {
            self.w3 as int
        } else if k == 4 {
            self.w4 as int
        } else if k == 5 {
            self.w5 as int
        } else if k == 6 {
            self.w6 as int
        } else {
            self.w7 as int
        }
    }

    /// Byte `i` of the digest, for `i` from 0 to 63.
    pub open spec fn byte(self, i: int) -> int {
        word_byte(self.word(i / 8), i % 8)
    }

    /// The digest that holds `bytes`, padded with zeros.
    pub open spec fn holds(self, bytes: Seq<u8>) -> bool {
        forall|k: int| 0 <= k < 8 ==> self.word(k) == #[trigger] packed_word(bytes, k)
    }
}

/// Reads the eight bytes of `bytes` from `8 * k` on as a big-endian number.
fn pack_word(bytes: &Vec<u8>, k: usize) -> (w: u64)
    requires
        k < 8,
    ensures
        w == packed_word(bytes@, k as int),
{
    let mut w: u64 = 0;
    let mut j: usize = 0;
    let ghost b = bytes@;
    let ghost base = 8 * (k as int);
    while j < 8
        invariant
            j <= 8,
            k < 8,
            b == bytes@,
            base == 8 * (k as int),
            j == 0 ==> w == 0,
            j == 1 ==> w == byte_or_zero(b, base),
            j == 2 ==> w == byte_or_zero(b, base) * 0x100 + byte_or_zero(b, base + 1),
            j == 3 ==> w == byte_or_zero(b, base) * 0x1_0000 + byte_or_zero(b, base + 1) * 0x100
                + byte_or_zero(b, base + 2),
            j == 4 ==> w == byte_or_zero(b, base) * 0x100_0000 + byte_or_zero(b, base + 1)
                * 0x1_0000 + byte_or_zero(b, base + 2) * 0x100 + byte_or_zero(b, base + 3),
            j == 5 ==> w == byte_or_zero(b, base) * 0x1_0000_0000 + byte_or_zero(b, base + 1)
                * 0x100_0000 + byte_or_zero(b, base + 2) * 0x1_0000 + byte_or_zero(b, base + 3)
                * 0x100 + byte_or_zero(b, base + 4),
            j == 6 ==> w == byte_or_zero(b, base) * 0x100_0000_0000 + byte_or_zero(b, base + 1)
                * 0x1_0000_0000 + byte_or_zero(b, base + 2) * 0x100_0000 + byte_or_zero(
                b,
                base + 3,
            ) * 0x1_0000 + byte_or_zero(b, base + 4) * 0x100 + byte_or_zero(b, base + 5),
            j == 7 ==> w == byte_or_zero(b, base) * 0x1_0000_0000_0000 + byte_or_zero(
                b,
                base + 1,
            ) * 0x100_0000_0000 + byte_or_zero(b, base + 2) * 0x1_0000_0000 + byte_or_zero(
                b,
                base + 3,
            ) * 0x100_0000 + byte_or_zero(b, base + 4) * 0x1_0000 + byte_or_zero(b, base + 5)
                * 0x100 + byte_or_zero(b, base + 6),
            j == 8 ==> w == packed_word(b, k as int),
        decreases 8 - j,
    {
        let i: usize = 8 * k + j;
        let byte: u8 = if i < bytes.len() {
            bytes[i]
        } else {
            0
        };
        assert(byte as int == byte_or_zero(b, base + j));
        w = w * 256 + byte as u64;
        j += 1;
    }
    w
}

/// A multihash: the code of the hash function, the length of the digest in
/// bytes, and the digest.
#[derive(Clone, Copy, PartialEq, Eq, Structural, Hash, Debug)]
pub struct Multihash {
    pub code: u64,
    pub size: u8,
    pub digest: Digest,
}

impl Multihash {
    /// The multihash of function `code` with the digest `bytes`, if `bytes`
    /// is short enough to be held.
    pub open spec fn wraps(self, code: u64, bytes: Seq<u8>) -> bool {
        &&& self.code == code
        &&& self.size as int == bytes.len()
        &&& self.digest.holds(bytes)
    }

    /// Builds a multihash from a hash function's code and a digest. Fails
    /// exactly when the digest is longer than 64 bytes.
    pub fn wrap(code: u64, digest: &Vec<u8>) -> (r: Option<Multihash>)
        ensures
            r is Some <==> digest@.len() <= MAX_DIGEST_LEN,
            r matches Some(m) ==> m.wraps(code, digest@),
    {
        if digest.len() > MAX_DIGEST_LEN {
            return None;
        }
        let d = Digest {
            w0: pack_word(digest, 0),
            w1: pack_word(digest, 1),
            w2: pack_word(digest, 2),
            w3: pack_word(digest, 3),
            w4: pack_word(digest, 4),
            w5: pack_word(digest, 5),
            w6: pack_word(digest, 6),
            w7: pack_word(digest, 7),
        };
        Some(Multihash { code, size: digest.len() as u8, digest: d })
    }

    /// The digest: its first `size` bytes, and at most 64.
    pub open spec fn digest_seq(self) -> Seq<u8> {
        Seq::new(
            if self.size <= 64 {
                self.size as nat
            } else {
                64
            },
            |i: int| self.digest.byte(i) as u8,
        )
    }

    /// The digest.
    pub fn digest_bytes(&self) -> (r: Vec<u8>)
        ensures
            r@ == self.digest_seq(),
    {
        let n: usize = if self.size as usize <= MAX_DIGEST_LEN {
            self.size as usize
        } else {
            MAX_DIGEST_LEN
        };
        let mut out: Vec<u8> = Vec::new();
        let mut i: usize = 0;
        while i < n
            invariant
                i <= n <= 64,
                out@.len() == i,
                forall|t: int| 0 <= t < i ==> out@[t] as int == self.digest.byte(t),
            decreases n - i,
        {
            let k: usize = i / 8;
            let w: u64 = if k == 0 {
                self.digest.w0
            } else if k == 1 {
                self.digest.w1
            } else if k == 2 {
                self.digest.w2
            } else if k == 3 {
                self.digest.w3
            } else if k == 4 {
                self.digest.w4
            } else if k == 5 {
                self.digest.w5
            } else if k == 6 {
                self.digest.w6
            } else {
                self.digest.w7
            };
            let j: usize = i % 8;
            let b: u64 = if j == 0 {
                (w / 0x100_0000_0000_0000) % 256
            } else if j == 1 {
                (w / 0x1_0000_0000_0000) % 256
            } else if j == 2 {
                (w / 0x100_0000_0000) % 256
            } else if j == 3 {
                (w / 0x1_0000_0000) % 256
            } else if j == 4 {
                (w / 0x100_0000) % 256
            } else if j == 5 {
                (w / 0x1_0000) % 256
            } else if j == 6 {
                (w / 0x100) % 256
            } else {
                w % 256
            };
            out.push(b as u8);
            i += 1;
        }
        assert(out@ =~= self.digest_seq());
        out
    }
}

/// Byte `j` of the big-endian number made of eight bytes is the `j`-th of them.
proof fn lemma_word_bytes(b0: int, b1: int, b2: int, b3: int, b4: int, b5: int, b6: int, b7: int)
    requires
        0 <= b0 < 256,
        0 <= b1 < 256,
        0 <= b2 < 256,
        0 <= b3 < 256,
        0 <= b4 < 256,
        0 <= b5 < 256,
        0 <= b6 < 256,
        0 <= b7 < 256,
    ensures
        ({
            let w = b0 * 0x100_0000_0000_0000 + b1 * 0x1_0000_0000_0000 + b2 * 0x100_0000_0000
                + b3 * 0x1_0000_0000 + b4 * 0x100_0000 + b5 * 0x1_0000 + b6 * 0x100 + b7;
            &&& word_byte(w, 0) == b0
            &&& word_byte(w, 1) == b1
            &&& word_byte(w, 2) == b2
            &&& word_byte(w, 3) == b3
            &&& word_byte(w, 4) == b4
            &&& word_byte(w, 5) == b5
            &&& word_byte(w, 6) == b6
            &&& word_byte(w, 7) == b7
        }),
{
    let w = b0 * 0x100_0000_0000_0000 + b1 * 0x1_0000_0000_0000 + b2 * 0x100_0000_0000 + b3
        * 0x1_0000_0000 + b4 * 0x100_0000 + b5 * 0x1_0000 + b6 * 0x100 + b7;
    let q6 = b0;
    let q5 = q6 * 256 + b1;
    let q4 = q5 * 256 + b2;
    let q3 = q4 * 256 + b3;
    let q2 = q3 * 256 + b4;
    let q1 = q2 * 256 + b5;
    let q0 = q1 * 256 + b6;
    lemma_fundamental_div_mod_converse(w, 0x100, q0, b7);
    lemma_fundamental_div_mod_converse(q0, 0x100, q1, b6);
    lemma_fundamental_div_mod_converse(w, 0x1_0000, q1, b6 * 0x100 + b7);
    lemma_fundamental_div_mod_converse(q1, 0x100, q2, b5);
    lemma_fundamental_div_mod_converse(w, 0x100_0000, q2, b5 * 0x1_0000 + b6 * 0x100 + b7);
    lemma_fundamental_div_mod_converse(q2, 0x100, q3, b4);
    lemma_fundamental_div_mod_converse(
        w,
        0x1_0000_0000,
        q3,
        b4 * 0x100_0000 + b5 * 0x1_0000 + b6 * 0x100 + b7,
    );
    lemma_fundamental_div_mod_converse(q3, 0x100, q4, b3);
    lemma_fundamental_div_mod_converse(
        w,
        0x100_0000_0000,
        q4,
        b3 * 0x1_0000_0000 + b4 * 0x100_0000 + b5 * 0x1_0000 + b6 * 0x100 + b7,
    );
    lemma_fundamental_div_mod_converse(q4, 0x100, q5, b2);
    lemma_fundamental_div_mod_converse(
        w,
        0x1_0000_0000_0000,
        q5,
        b2 * 0x100_0000_0000 + b3 * 0x1_0000_0000 + b4 * 0x100_0000 + b5 * 0x1_0000 + b6 * 0x100
            + b7,
    );
    lemma_fundamental_div_mod_converse(q5, 0x100, q6, b1);
    lemma_fundamental_div_mod_converse(
        w,
        0x100_0000_0000_0000,
        q6,
        b1 * 0x1_0000_0000_0000 + b2 * 0x100_0000_0000 + b3 * 0x1_0000_0000 + b4 * 0x100_0000 + b5
            * 0x1_0000 + b6 * 0x100 + b7,
    );
    lemma_fundamental_div_mod_converse(q6, 0x100, 0, b0);
}

/// Unpacking a packed digest gives the bytes back: byte `i` of a digest that
/// holds `bytes` is `bytes[i]`, and zero past the end.
pub proof fn lemma_digest_round_trip(d: Digest, bytes: Seq<u8>, i: int)
    requires
        d.holds(bytes),
        0 <= i < 64,
    ensures
        d.byte(i) == byte_or_zero(bytes, i),
{
    let k = i / 8;
    assert(d.word(k) == packed_word(bytes, k));
    lemma_word_bytes(
        byte_or_zero(bytes, 8 * k),
        byte_or_zero(bytes, 8 * k + 1),
        byte_or_zero(bytes, 8 * k + 2),
        byte_or_zero(bytes, 8 * k + 3),
        byte_or_zero(bytes, 8 * k + 4),
        byte_or_zero(bytes, 8 * k + 5),
        byte_or_zero(bytes, 8 * k + 6),
        byte_or_zero(bytes, 8 * k + 7),
    );
}

/// A content identifier: version, content codec and the hash of the content.
#[derive(Clone, Copy, PartialEq, Eq, Structural, Hash, Debug)]
pub struct Cid {
    pub version: u64,
    pub codec: u64,
    pub hash: Multihash,
}

impl Key for Cid {
    fn same(&self, other: &Self) -> (r: bool) {
        *self == *other
    }
}

/// The identifier of a peer: the multihash of its public key.
#[derive(Clone, Copy, PartialEq, Eq, Structural, Hash, Debug)]
pub struct PeerId {
    pub hash: Multihash,
}

impl Key for PeerId {
    fn same(&self, other: &Self) -> (r: bool) {
        *self == *other
    }
}

impl Key for u64 {
    fn same(&self, other: &Self) -> (r: bool) {
        *self == *other
    }
}

/// A block of data with the identifier under which it is known. That the
/// identifier is the hash of the data is the sender's duty; nothing here
/// recomputes it.
#[derive(Clone, Debug)]
pub struct Block {
    pub cid: Cid,
    pub data: Vec<u8>,
}

impl Block {
    pub fn new(data: Vec<u8>, cid: Cid) -> (b: Block)
        ensures
            b.cid == cid,
            b.data == data,
    {
        Block { cid, data }
    }

    pub fn cid(&self) -> (c: Cid)
        ensures
            c == self.cid,
    {
        self.cid
    }

    pub fn data(&self) -> (d: &Vec<u8>)
        ensures
            d == self.data,
    {
        &self.data
    }

    /// A copy of the block, byte for byte.
    pub fn duplicate(&self) -> (b: Block)
        ensures
            b.cid == self.cid,
            b.data@ == self.data@,
    {
        Block { cid: self.cid, data: self.data.clone() }
    }
}

} // verus!
