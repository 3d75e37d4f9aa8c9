//! Fixed-width two's-complement byte codecs for arbitrary-precision
//! integers, under a chosen signedness and endianness.

use vstd::prelude::*;
use crate::intval::{
    Int, copy_bytes, le_value, lemma_canonical_len_le, lemma_canonical_pos, lemma_le_value_bound,
    lemma_le_value_last, lemma_le_value_push, lemma_le_value_zero, lemma_pow256_mono,
    lemma_pow256_pos, pow256,
};
use crate::list::List;

verus! {

/// Whether a fixed-width representation treats its top bit as a sign bit.
#[derive(Clone, Copy, PartialEq, Eq, Structural, Debug, Hash)]
pub enum Signedness {
    Signed,
    Unsigned,
}

/// The byte order used when serializing a multi-byte integer.
#[derive(Clone, Copy, PartialEq, Eq, Structural, Debug, Hash)]
pub enum Endianness {
    LittleEndian,
    BigEndian,
}

/// The largest width the codec accepts, in bytes.
pub const MAX_SIZE_BYTES: usize = 0x1000_0000;

/// A byte-count/bit-count pair for a fixed-width representation, with
/// `bits == 8 * bytes`. Its view is the byte count, at least one.
#[derive(Clone, Copy, Debug)]
pub struct Size {
    bytes: usize,
}

impl Size {
    #[verifier::type_invariant]
    spec fn wf(self) -> bool {
        1 <= self.bytes <= MAX_SIZE_BYTES
    }
}

impl View for Size {
    type V = nat;

    closed spec fn view(&self) -> nat {
        self.bytes as nat
    }
}

impl Size {
    /// The width with a given byte count, if it is positive and within the
    /// supported maximum.
    pub fn from_bytes(bytes: usize) -> (r: Option<Size>)
        ensures
            (r is Some) <==> (1 <= bytes <= MAX_SIZE_BYTES),
            r matches Some(s) ==> s@ == bytes,
    {
        if 1 <= bytes && bytes <= MAX_SIZE_BYTES {
            Some(Size { bytes })
        } else {
            None
        }
    }

    /// The width with a given bit count, if it is a positive multiple of
    /// eight within the supported maximum.
    pub fn from_bits(bits: u64) -> (r: Option<Size>)
        ensures
            (r is Some) <==> (bits % 8 == 0 && 8 <= bits && bits <= 8 * (MAX_SIZE_BYTES as u64)),
            r matches Some(s) ==> s@ * 8 == bits,
    {
        if bits % 8 == 0 && 8 <= bits && bits <= 8 * (MAX_SIZE_BYTES as u64) {
            Some(Size { bytes: (bits / 8) as usize })
        } else {
            None
        }
    }

    /// The byte count.
    pub fn bytes(&self) -> (r: usize)
        ensures
            r == self@,
            1 <= r <= MAX_SIZE_BYTES,
    {
        proof {
            use_type_invariant(self);
        }
        self.bytes
    }

    /// The bit count, eight per byte.
    pub fn bits(&self) -> (r: u64)
        ensures
            r == 8 * self@,
    {
        proof {
            use_type_invariant(self);
        }
        (self.bytes as u64) * 8
    }
}

/// The weight of the sign bit in an `n`-byte representation: half of
/// `pow256(n)`.
pub open spec fn half_weight(n: nat) -> nat {
    if n == 0 {
        0
    } else {
        128 * pow256((n - 1) as nat)
    }
}

/// The values representable in `n` bytes: two's complement around zero when
/// signed, `[0, pow256(n))` when unsigned.
pub open spec fn in_bounds_spec(signed: Signedness, n: nat, v: int) -> bool {
    match signed {
        Signedness::Unsigned => 0 <= v < pow256(n),
        Signedness::Signed => -(half_weight(n) as int) <= v < half_weight(n),
    }
}

/// The two's-complement residue of `v` in `n` bytes: negative values are
/// shifted up by the modulus `pow256(n)` before byte-splitting.
pub open spec fn encoded_nat(v: int, n: nat) -> int {
    if v >= 0 {
        v
    } else {
        v + pow256(n)
    }
}

/// The value read back from a little-endian two's-complement byte sequence:
/// when signed, a set sign bit pulls the value down by the modulus.
pub open spec fn decoded_int(signed: Signedness, le: Seq<u8>) -> int {
    let u = le_value(le) as int;
    match signed {
        Signedness::Unsigned => u,
        Signedness::Signed => if u < half_weight(le.len()) {
            u
        } else {
            u - pow256(le.len())
        },
    }
}

/// A byte sequence normalized to little-endian order.
pub open spec fn le_normal(e: Endianness, s: Seq<u8>) -> Seq<u8> {
    match e {
        Endianness::LittleEndian => s,
        Endianness::BigEndian => s.reverse(),
    }
}

/// `pow256(n)` is twice `half_weight(n)` for every positive width.
pub proof fn lemma_half_weight(n: nat)
    requires
        n >= 1,
    ensures
        pow256(n) == 2 * half_weight(n),
        half_weight(n) >= 128,
{
    lemma_pow256_pos((n - 1) as nat);
}

/// Round trip: a value within bounds is recovered exactly from its
/// two's-complement residue, for every width and signedness.
pub proof fn lemma_codec_round_trip(signed: Signedness, n: nat, v: int, le: Seq<u8>)
    requires
        n >= 1,
        in_bounds_spec(signed, n, v),
        le.len() == n,
        le_value(le) == encoded_nat(v, n),
    ensures
        decoded_int(signed, le) == v,
{
    lemma_half_weight(n);
}

/// Endianness symmetry: two encodings of one residue, one read little-endian
/// and one read big-endian, are exact reverses of each other.
pub proof fn lemma_endianness_reverse(a: Seq<u8>, b: Seq<u8>)
    requires
        a.len() == b.len(),
        le_value(a) == le_value(b.reverse()),
    ensures
        b == a.reverse(),
        a == b.reverse(),
{
    crate::intval::lemma_le_value_inj(a, b.reverse());
    assert(a =~= b.reverse());
    assert(b =~= a.reverse());
}

/// Pads a magnitude with zero bytes up to `n` bytes, preserving its value.
fn pad_bytes(v: &Vec<u8>, n: usize) -> (out: Vec<u8>)
    requires
        v@.len() <= n,
    ensures
        out@.len() == n,
        le_value(out@) == le_value(v@),
{
    let mut out = copy_bytes(v);
    while out.len() < n
        invariant
            out@.len() <= n,
            le_value(out@) == le_value(v@),
        decreases n - out@.len(),
    {
        proof {
            lemma_le_value_push(out@, 0);
        }
        out.push(0);
    }
    out
}

/// The `n`-byte two's complement of a non-zero magnitude: the little-endian
/// bytes of `pow256(n) - le_value(v)`.
fn complement_bytes(v: &Vec<u8>, n: usize) -> (out: Vec<u8>)
    requires
        v@.len() <= n,
        1 <= le_value(v@),
    ensures
        out@.len() == n,
        le_value(out@) == pow256(n as nat) - le_value(v@),
{
    let p = pad_bytes(v, n);
    let mut out: Vec<u8> = Vec::new();
    let mut carry: u8 = 1;
    let mut i: usize = 0;
    proof {
        assert(le_value(out@) == 0);
        assert(pow256(0) == 1);
    }
    while i < n
        invariant
            i <= n,
            n == p@.len(),
            out@.len() == i,
            carry <= 1,
            le_value(p@) == le_value(v@),
            le_value(out@) + carry * pow256(i as nat) == pow256(i as nat) - le_value(
                p@.take(i as int),
            ),
        decreases n - i,
    {
        let t: u16 = 255 - (p[i] as u16) + (carry as u16);
        let b: u8 = (t % 256) as u8;
        proof {
            lemma_le_value_push(out@, b);
            lemma_le_value_push(p@.take(i as int), p@[i as int]);
            assert(p@.take(i + 1) =~= p@.take(i as int).push(p@[i as int]));
            assert(b + 256 * (t / 256) == 255 - p@[i as int] + carry);
            assert((t / 256) * (256 * pow256(i as nat)) == (256 * (t / 256)) * pow256(i as nat))
                by (nonlinear_arith);
            assert(pow256((i + 1) as nat) == 256 * pow256(i as nat));
            assert((b + 256 * (t / 256)) * pow256(i as nat) == b * pow256(i as nat) + (256 * (t
                / 256)) * pow256(i as nat)) by (nonlinear_arith);
            assert((255 - p@[i as int] + carry) * pow256(i as nat) == 255 * pow256(i as nat)
                - p@[i as int] * pow256(i as nat) + carry * pow256(i as nat)) by (nonlinear_arith);
            assert(256 * pow256(i as nat) == 255 * pow256(i as nat) + pow256(i as nat));
        }
        out.push(b);
        carry = (t / 256) as u8;
        i += 1;
    }
    proof {
        assert(p@.take(n as int) =~= p@);
        if carry == 1 {
            lemma_pow256_pos(n as nat);
        }
    }
    out
}

/// Reverses a byte vector.
fn rev_bytes(v: &Vec<u8>) -> (out: Vec<u8>)
    ensures
        out@ == v@.reverse(),
{
    let mut out: Vec<u8> = Vec::new();
    let mut i: usize = v.len();
    while i > 0
        invariant
            i <= v@.len(),
            out@.len() == v@.len() - i,
            forall|j: int| 0 <= j < out@.len() ==> out@[j] == v@[v@.len() - 1 - j],
        decreases i,
    {
        i -= 1;
        out.push(v[i]);
    }
    proof {
        assert(out@ =~= v@.reverse());
    }
    out
}

impl Int {
    /// Whether this value is representable in `size` bytes under `signed`:
    /// within `[-pow256(size)/2, pow256(size)/2)` when signed, within
    /// `[0, pow256(size))` when unsigned.
    pub fn in_bounds(&self, signed: Signedness, size: &Size) -> (b: bool)
        ensures
            b == in_bounds_spec(signed, size@, self@),
    {
        let (neg, mag) = self.sign_magnitude();
        let n = size.bytes();
        proof {
            lemma_pow256_pos((n - 1) as nat);
            if mag@.len() > 0 {
                lemma_canonical_pos(mag@);
                lemma_le_value_last(mag@);
                lemma_le_value_bound(mag@.drop_last());
            }
            lemma_le_value_bound(mag@);
        }
        match signed {
            Signedness::Unsigned => {
                if neg {
                    false
                } else {
                    let ok = mag.len() <= n;
                    proof {
                        if ok {
                            lemma_pow256_mono(mag@.len(), n as nat);
                        } else {
                            lemma_pow256_mono(n as nat, (mag@.len() - 1) as nat);
                        }
                    }
                    ok
                }
            },
            Signedness::Signed => {
                if mag.len() < n {
                    proof {
                        lemma_pow256_mono(mag@.len(), (n - 1) as nat);
                    }
                    true
                } else if mag.len() > n {
                    proof {
                        lemma_pow256_mono(n as nat, (mag@.len() - 1) as nat);
                        assert(pow256(n as nat) == 256 * pow256((n - 1) as nat));
                    }
                    false
                } else {
                    let top = mag[n - 1];
                    proof {
                        assert(mag@.last() == mag@[n - 1]);
                        assert(le_value(mag@) == le_value(mag@.drop_last()) + top * pow256(
                            (n - 1) as nat,
                        ));
                        assert(top >= 128 ==> top * pow256((n - 1) as nat) >= 128 * pow256(
                            (n - 1) as nat,
                        )) by (nonlinear_arith);
                        assert(top <= 127 ==> top * pow256((n - 1) as nat) + pow256((n - 1) as nat)
                            <= 128 * pow256((n - 1) as nat)) by (nonlinear_arith);
                        assert(top >= 129 ==> top * pow256((n - 1) as nat) >= 129 * pow256(
                            (n - 1) as nat,
                        )) by (nonlinear_arith);
                    }
                    if !neg {
                        top < 128
                    } else {
                        if top < 128 {
                            true
                        } else if top > 128 {
                            false
                        } else {
                            // the magnitude equals the sign-bit weight exactly
                            // when every lower byte is zero
                            let mut all_zero = true;
                            let mut j: usize = 0;
                            while j < n - 1
                                invariant
                                    j <= n - 1,
                                    n == mag@.len(),
                                    all_zero <==> (forall|k: int| 0 <= k < j ==> mag@[k] == 0),
                                decreases n - 1 - j,
                            {
                                if mag[j] != 0 {
                                    all_zero = false;
                                }
                                j += 1;
                            }
                            proof {
                                lemma_le_value_zero(mag@.drop_last());
                                assert(forall|k: int|
                                    0 <= k < mag@.drop_last().len() ==> mag@.drop_last()[k]
                                        == mag@[k]);
                            }
                            all_zero
                        }
                    }
                }
            },
        }
    }
}

impl Endianness {
    /// Encodes `value` into exactly `size` bytes of two's complement in this
    /// byte order. Returns `None` exactly when `value` is not representable
    /// in `size` bytes under `signed`.
    pub fn encode(self, signed: Signedness, size: &Size, value: &Int) -> (r: Option<List<u8>>)
        ensures
            (r is Some) <==> in_bounds_spec(signed, size@, value@),
            r matches Some(bs) ==> bs@.len() == size@ && le_value(le_normal(self, bs@))
                == encoded_nat(value@, size@),
    {
        if !value.in_bounds(signed, size) {
            return None;
        }
        let (neg, mag) = value.sign_magnitude();
        let n = size.bytes();
        proof {
            lemma_half_weight(n as nat);
            lemma_canonical_len_le(mag@, n as nat);
        }
        let le: Vec<u8> = if !neg {
            pad_bytes(mag, n)
        } else {
            complement_bytes(mag, n)
        };
        let bytes: Vec<u8> = match self {
            Endianness::LittleEndian => le,
            Endianness::BigEndian => {
                let ghost le_snapshot = le@;
                let b = rev_bytes(&le);
                proof {
                    assert(b@.reverse() =~= le_snapshot);
                }
                b
            },
        };
        Some(List::from_vec(bytes))
    }

    /// Decodes a non-empty byte sequence as a two's-complement integer in
    /// this byte order: the bytes are normalized to little-endian order and,
    /// when signed, a set top bit pulls the value down by the modulus.
    pub fn decode(self, signed: Signedness, bytes: &List<u8>) -> (r: Int)
        requires
            bytes@.len() > 0,
        ensures
            r@ == decoded_int(signed, le_normal(self, bytes@)),
    {
        let v = bytes.as_vec();
        let le: Vec<u8> = match self {
            Endianness::LittleEndian => copy_bytes(v),
            Endianness::BigEndian => rev_bytes(v),
        };
        let n = le.len();
        proof {
            lemma_le_value_bound(le@);
            lemma_le_value_last(le@);
            lemma_le_value_bound(le@.drop_last());
            lemma_pow256_pos((n - 1) as nat);
            assert(pow256(n as nat) == 256 * pow256((n - 1) as nat));
        }
        match signed {
            Signedness::Unsigned => Int::from_sign_magnitude(false, le),
            Signedness::Signed => {
                let top = le[n - 1];
                proof {
                    assert(le@.last() == le@[n - 1]);
                    assert(top < 128 ==> top * pow256((n - 1) as nat) + pow256((n - 1) as nat)
                        <= 128 * pow256((n - 1) as nat)) by (nonlinear_arith);
                    assert(top >= 128 ==> top * pow256((n - 1) as nat) >= 128 * pow256(
                        (n - 1) as nat,
                    )) by (nonlinear_arith);
                }
                if top < 128 {
                    Int::from_sign_magnitude(false, le)
                } else {
                    let mag = complement_bytes(&le, n);
                    Int::from_sign_magnitude(true, mag)
                }
            },
        }
    }
}

} // verus!
