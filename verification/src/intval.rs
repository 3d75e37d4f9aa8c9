//! Arbitrary-precision signed integers, stored as a sign and a little-endian
//! magnitude in bytes. All arithmetic is exact: nothing wraps or overflows.

use vstd::prelude::*;

verus! {

/// 256 raised to the power `n`: the number of values representable in `n` bytes.
pub open spec fn pow256(n: nat) -> nat
    decreases n,
{
    if n == 0 {
        1
    } else {
        256 * pow256((n - 1) as nat)
    }
}

/// The unsigned value of a little-endian byte sequence.
pub open spec fn le_value(s: Seq<u8>) -> nat
    decreases s.len(),
{
    if s.len() == 0 {
        0
    } else {
        s[0] as nat + 256 * le_value(s.skip(1))
    }
}

/// 2 raised to the power `n`.
pub open spec fn pow2(n: nat) -> nat
    decreases n,
{
    if n == 0 {
        1
    } else {
        2 * pow2((n - 1) as nat)
    }
}

/// A little-endian magnitude is canonical when it carries no leading zero,
/// that is, no zero in its final (most significant) position.
pub open spec fn canonical_le(s: Seq<u8>) -> bool {
    s.len() == 0 || s.last() != 0
}

/// The absolute value of an integer, as a natural number.
pub open spec fn abs_of(v: int) -> nat {
    if v >= 0 {
        v as nat
    } else {
        (-v) as nat
    }
}

pub proof fn lemma_pow256_pos(n: nat)
    ensures
        pow256(n) >= 1,
    decreases n,
{
    if n > 0 {
        lemma_pow256_pos((n - 1) as nat);
    }
}

pub proof fn lemma_pow256_mono(a: nat, b: nat)
    requires
        a <= b,
    ensures
        pow256(a) <= pow256(b),
    decreases b,
{
    if a < b {
        lemma_pow256_mono(a, (b - 1) as nat);
        lemma_pow256_pos((b - 1) as nat);
    }
}

pub proof fn lemma_pow2_pos(n: nat)
    ensures
        pow2(n) >= 1,
    decreases n,
{
    if n > 0 {
        lemma_pow2_pos((n - 1) as nat);
    }
}

/// Splitting an exponent splits the power into a product.
pub proof fn lemma_pow2_adds(a: nat, b: nat)
    ensures
        pow2(a + b) == pow2(a) * pow2(b),
    decreases a,
{
    if a == 0 {
        assert(1 * pow2(b) == pow2(b)) by (nonlinear_arith);
    } else {
        lemma_pow2_adds((a - 1) as nat, b);
        assert(pow2(a + b) == 2 * pow2((a - 1) as nat + b));
        assert(2 * (pow2((a - 1) as nat) * pow2(b)) == (2 * pow2((a - 1) as nat)) * pow2(b))
            by (nonlinear_arith);
    }
}

/// Eight doublings make one byte of weight.
pub proof fn lemma_pow2_bytes(n: nat)
    ensures
        pow2(8 * n) == pow256(n),
    decreases n,
{
    if n > 0 {
        lemma_pow2_bytes((n - 1) as nat);
        lemma_pow2_adds(8 * (n - 1) as nat, 8);
        assert(pow2(8) == 256) by {
            reveal_with_fuel(pow2, 9);
        }
        assert(pow2(8 * (n - 1) as nat) * pow2(8) == 256 * pow2(8 * (n - 1) as nat))
            by (nonlinear_arith)
            requires
                pow2(8) == 256,
        ;
    }
}

pub proof fn lemma_le_value_bound(s: Seq<u8>)
    ensures
        le_value(s) < pow256(s.len()),
    decreases s.len(),
{
    if s.len() > 0 {
        lemma_le_value_bound(s.skip(1));
    }
}

pub proof fn lemma_le_value_push(s: Seq<u8>, b: u8)
    ensures
        le_value(s.push(b)) == le_value(s) + b * pow256(s.len()),
    decreases s.len(),
{
    let t = s.push(b);
    if s.len() == 0 {
        assert(t.skip(1) =~= Seq::<u8>::empty());
        assert(le_value(t) == t[0] + 256 * le_value(t.skip(1)));
        assert(t[0] == b);
        assert(pow256(0) == 1);
    } else {
        assert(t.skip(1) =~= s.skip(1).push(b));
        lemma_le_value_push(s.skip(1), b);
        assert(le_value(t) == t[0] + 256 * le_value(t.skip(1)));
        assert(t[0] == s[0]);
        assert(le_value(t.skip(1)) == le_value(s.skip(1)) + b * pow256((s.len() - 1) as nat));
        assert(256 * (le_value(s.skip(1)) + b * pow256((s.len() - 1) as nat)) == 256 * le_value(
            s.skip(1),
        ) + b * (256 * pow256((s.len() - 1) as nat))) by (nonlinear_arith);
        assert(pow256(s.len()) == 256 * pow256((s.len() - 1) as nat));
        assert(le_value(s) == s[0] + 256 * le_value(s.skip(1)));
    }
}

pub proof fn lemma_le_value_last(s: Seq<u8>)
    requires
        s.len() > 0,
    ensures
        le_value(s) == le_value(s.drop_last()) + s.last() * pow256((s.len() - 1) as nat),
{
    assert(s =~= s.drop_last().push(s.last()));
    lemma_le_value_push(s.drop_last(), s.last());
}

/// A canonical, non-empty magnitude denotes a strictly positive value, no
/// smaller than the weight of its most significant byte.
pub proof fn lemma_canonical_pos(s: Seq<u8>)
    requires
        canonical_le(s),
        s.len() > 0,
    ensures
        le_value(s) >= pow256((s.len() - 1) as nat),
        le_value(s) >= 1,
{
    lemma_le_value_last(s);
    lemma_pow256_pos((s.len() - 1) as nat);
    assert(s.last() * pow256((s.len() - 1) as nat) >= pow256((s.len() - 1) as nat))
        by (nonlinear_arith)
        requires
            s.last() >= 1,
            pow256((s.len() - 1) as nat) >= 0,
    ;
}

/// Two byte sequences of one length with one value are the same sequence.
pub proof fn lemma_le_value_inj(a: Seq<u8>, b: Seq<u8>)
    requires
        a.len() == b.len(),
        le_value(a) == le_value(b),
    ensures
        a =~= b,
    decreases a.len(),
{
    if a.len() > 0 {
        assert(a[0] == b[0] && le_value(a.skip(1)) == le_value(b.skip(1)));
        lemma_le_value_inj(a.skip(1), b.skip(1));
        assert forall|i: int| 0 <= i < a.len() implies a[i] == b[i] by {
            if i > 0 {
                assert(a.skip(1)[i - 1] == b.skip(1)[i - 1]);
            }
        }
    }
}

/// Two canonical magnitudes with one value are the same sequence.
pub proof fn lemma_canonical_le_inj(a: Seq<u8>, b: Seq<u8>)
    requires
        canonical_le(a),
        canonical_le(b),
        le_value(a) == le_value(b),
    ensures
        a =~= b,
{
    if a.len() < b.len() {
        lemma_le_value_bound(a);
        lemma_canonical_pos(b);
        lemma_pow256_mono(a.len(), (b.len() - 1) as nat);
        assert(false);
    }
    if b.len() < a.len() {
        lemma_le_value_bound(b);
        lemma_canonical_pos(a);
        lemma_pow256_mono(b.len(), (a.len() - 1) as nat);
        assert(false);
    }
    lemma_le_value_inj(a, b);
}

/// A canonical magnitude below `pow256(n)` fits in `n` bytes.
pub proof fn lemma_canonical_len_le(s: Seq<u8>, n: nat)
    requires
        canonical_le(s),
        le_value(s) < pow256(n),
    ensures
        s.len() <= n,
{
    if s.len() > n {
        lemma_canonical_pos(s);
        lemma_pow256_mono(n, (s.len() - 1) as nat);
    }
}

/// Two equally long byte sequences that agree above position `j` are
/// ordered by their bytes at position `j`.
pub proof fn lemma_le_value_msb_cmp(a: Seq<u8>, b: Seq<u8>, j: nat)
    requires
        a.len() == b.len(),
        j < a.len(),
        a.skip(j + 1 as int) =~= b.skip(j + 1 as int),
        a[j as int] < b[j as int],
    ensures
        le_value(a) < le_value(b),
{
    lemma_le_value_split(a, j);
    lemma_le_value_split(b, j);
    lemma_le_value_bound(a.take(j as int));
    lemma_pow256_pos(j);
    assert(le_value(a.skip(j as int)) == a[j as int] + 256 * le_value(a.skip(j as int).skip(1)))
        by {
        assert(a.skip(j as int)[0] == a[j as int]);
    }
    assert(le_value(b.skip(j as int)) == b[j as int] + 256 * le_value(b.skip(j as int).skip(1)))
        by {
        assert(b.skip(j as int)[0] == b[j as int]);
    }
    assert(a.skip(j as int).skip(1) =~= a.skip(j + 1 as int));
    assert(b.skip(j as int).skip(1) =~= b.skip(j + 1 as int));
    let p = pow256(j);
    let ta = le_value(a.take(j as int)) as int;
    let tb = le_value(b.take(j as int)) as int;
    let rest = le_value(a.skip(j + 1 as int)) as int;
    assert(le_value(a) == ta + p * (a[j as int] + 256 * rest));
    assert(le_value(b) == tb + p * (b[j as int] + 256 * rest));
    assert(p * (a[j as int] + 256 * rest) + p <= p * (b[j as int] + 256 * rest))
        by (nonlinear_arith)
        requires
            a[j as int] < b[j as int],
            p >= 1,
            rest >= 0,
    ;
}

/// A byte sequence denotes zero exactly when all its bytes are zero.
pub proof fn lemma_le_value_zero(s: Seq<u8>)
    ensures
        (le_value(s) == 0) <==> (forall|i: int| 0 <= i < s.len() ==> s[i] == 0),
    decreases s.len(),
{
    if s.len() > 0 {
        lemma_le_value_zero(s.skip(1));
        if le_value(s) == 0 {
            assert forall|i: int| 0 <= i < s.len() implies s[i] == 0 by {
                if i > 0 {
                    assert(s.skip(1)[i - 1] == 0);
                }
            }
        }
        if forall|i: int| 0 <= i < s.len() ==> s[i] == 0 {
            assert forall|i: int| 0 <= i < s.skip(1).len() implies s.skip(1)[i] == 0 by {
                assert(s[i + 1] == 0);
            }
        }
    }
}

/// Splitting a byte sequence at position `j` splits its value by the weight
/// `pow256(j)`.
pub proof fn lemma_le_value_split(s: Seq<u8>, j: nat)
    requires
        j <= s.len(),
    ensures
        le_value(s) == le_value(s.take(j as int)) + pow256(j) * le_value(s.skip(j as int)),
    decreases j,
{
    if j == 0 {
        assert(s.take(0) =~= Seq::<u8>::empty());
        assert(s.skip(0) =~= s);
        assert(pow256(0) == 1);
        assert(1 * le_value(s) == le_value(s)) by (nonlinear_arith);
    } else {
        lemma_le_value_split(s.skip(1), (j - 1) as nat);
        assert(s.skip(1).take(j - 1) =~= s.take(j as int).skip(1));
        assert(s.skip(1).skip(j - 1) =~= s.skip(j as int));
        assert(256 * (le_value(s.take(j as int).skip(1)) + pow256((j - 1) as nat) * le_value(
            s.skip(j as int),
        )) == 256 * le_value(s.take(j as int).skip(1)) + (256 * pow256((j - 1) as nat)) * le_value(
            s.skip(j as int),
        )) by (nonlinear_arith);
        assert(le_value(s) == s[0] + 256 * le_value(s.skip(1)));
        assert(le_value(s.take(j as int)) == s.take(j as int)[0] + 256 * le_value(
            s.take(j as int).skip(1),
        ));
        assert(s.take(j as int)[0] == s[0]);
        assert(pow256(j) == 256 * pow256((j - 1) as nat));
        assert((256 * pow256((j - 1) as nat)) * le_value(s.skip(j as int)) == pow256(j) * le_value(
            s.skip(j as int),
        )) by (nonlinear_arith)
            requires
                pow256(j) == 256 * pow256((j - 1) as nat),
        ;
    }
}

/// An arbitrary-precision signed integer: a sign and a canonical
/// little-endian magnitude. The mathematical value is its view.
pub struct Int {
    negative: bool,
    magnitude: Vec<u8>,
}

impl Int {
    #[verifier::type_invariant]
    spec fn wf(self) -> bool {
        canonical_le(self.magnitude@) && (self.negative ==> self.magnitude@.len() > 0)
    }
}

impl View for Int {
    type V = int;

    closed spec fn view(&self) -> int {
        if self.negative {
            -(le_value(self.magnitude@) as int)
        } else {
            le_value(self.magnitude@) as int
        }
    }
}

/// Copies a byte vector.
pub(crate) fn copy_bytes(v: &Vec<u8>) -> (out: Vec<u8>)
    ensures
        out@ == v@,
{
    let mut out: Vec<u8> = Vec::new();
    let mut i: usize = 0;
    while i < v.len()
        invariant
            i <= v@.len(),
            out@ == v@.take(i as int),
        decreases v@.len() - i,
    {
        out.push(v[i]);
        proof {
            assert(v@.take(i + 1) =~= v@.take(i as int).push(v@[i as int]));
        }
        i += 1;
    }
    proof {
        assert(v@.take(v@.len() as int) =~= v@);
    }
    out
}

/// Compares two byte vectors for sequence equality.
fn bytes_eq(a: &Vec<u8>, b: &Vec<u8>) -> (r: bool)
    ensures
        r == (a@ == b@),
{
    if a.len() != b.len() {
        return false;
    }
    let mut i: usize = 0;
    while i < a.len()
        invariant
            i <= a@.len(),
            a@.len() == b@.len(),
            forall|j: int| 0 <= j < i ==> a@[j] == b@[j],
        decreases a@.len() - i,
    {
        if a[i] != b[i] {
            return false;
        }
        i += 1;
    }
    proof {
        assert(a@ =~= b@);
    }
    true
}

/// The little-endian magnitude of a 128-bit unsigned value.
fn le_bytes_of_u128(x: u128) -> (out: Vec<u8>)
    ensures
        le_value(out@) == x,
        canonical_le(out@),
{
    let mut out: Vec<u8> = Vec::new();
    let mut rem: u128 = x;
    proof {
        assert(le_value(out@) == 0);
        assert(pow256(out@.len()) == 1);
    }
    while rem > 0
        invariant
            le_value(out@) + rem * pow256(out@.len()) == x,
            out@.len() > 0 && rem == 0 ==> out@.last() != 0,
        decreases rem,
    {
        let b: u8 = (rem % 256) as u8;
        proof {
            lemma_le_value_push(out@, b);
            lemma_pow256_pos(out@.len());
            assert((rem / 256) * (256 * pow256(out@.len())) == 256 * (rem / 256) * pow256(
                out@.len(),
            )) by (nonlinear_arith);
            assert((b + 256 * (rem / 256)) * pow256(out@.len()) == b * pow256(out@.len()) + 256 * (
            rem / 256) * pow256(out@.len())) by (nonlinear_arith);
        }
        out.push(b);
        rem = rem / 256;
    }
    proof {
        lemma_pow256_pos(out@.len());
    }
    out
}

/// Increments a little-endian magnitude by one.
fn le_bytes_inc(v: &Vec<u8>) -> (out: Vec<u8>)
    ensures
        le_value(out@) == le_value(v@) + 1,
{
    let mut out: Vec<u8> = Vec::new();
    let mut carry: u8 = 1;
    let mut i: usize = 0;
    while i < v.len()
        invariant
            i <= v@.len(),
            out@.len() == i,
            carry <= 1,
            le_value(out@) + carry * pow256(i as nat) == le_value(v@.take(i as int)) + 1,
        decreases v@.len() - i,
    {
        let s: u16 = v[i] as u16 + carry as u16;
        let b: u8 = (s % 256) as u8;
        proof {
            lemma_le_value_push(out@, b);
            lemma_le_value_push(v@.take(i as int), v@[i as int]);
            assert(v@.take(i + 1) =~= v@.take(i as int).push(v@[i as int]));
            assert((s / 256) * (256 * pow256(i as nat)) == (256 * (s / 256)) * pow256(i as nat))
                by (nonlinear_arith);
            assert((b + 256 * (s / 256)) * pow256(i as nat) == b * pow256(i as nat) + (256 * (s
                / 256)) * pow256(i as nat)) by (nonlinear_arith);
            assert((v@[i as int] + carry) * pow256(i as nat) == v@[i as int] * pow256(i as nat)
                + carry * pow256(i as nat)) by (nonlinear_arith);
        }
        out.push(b);
        carry = (s / 256) as u8;
        i += 1;
    }
    proof {
        assert(v@.take(v@.len() as int) =~= v@);
    }
    if carry == 1 {
        proof {
            lemma_le_value_push(out@, 1);
        }
        out.push(1);
    }
    out
}

/// Decrements a little-endian magnitude by one.
fn le_bytes_dec(v: &Vec<u8>) -> (out: Vec<u8>)
    requires
        le_value(v@) >= 1,
    ensures
        le_value(out@) == le_value(v@) - 1,
{
    let mut out: Vec<u8> = Vec::new();
    let mut borrow: u8 = 1;
    let mut i: usize = 0;
    while i < v.len()
        invariant
            i <= v@.len(),
            out@.len() == i,
            borrow <= 1,
            le_value(out@) + 1 == le_value(v@.take(i as int)) + borrow * pow256(i as nat),
        decreases v@.len() - i,
    {
        let b: u8 = if v[i] >= borrow {
            v[i] - borrow
        } else {
            255
        };
        let next_borrow: u8 = if v[i] >= borrow {
            0
        } else {
            1
        };
        proof {
            lemma_le_value_push(out@, b);
            lemma_le_value_push(v@.take(i as int), v@[i as int]);
            assert(v@.take(i + 1) =~= v@.take(i as int).push(v@[i as int]));
            assert(next_borrow * (256 * pow256(i as nat)) == (256 * next_borrow) * pow256(i as nat))
                by (nonlinear_arith);
            assert((v@[i as int] - borrow + 256 * next_borrow) * pow256(i as nat) == v@[i as int]
                * pow256(i as nat) - borrow * pow256(i as nat) + (256 * next_borrow) * pow256(
                i as nat,
            )) by (nonlinear_arith);
            assert(b == v@[i as int] - borrow + 256 * next_borrow);
        }
        out.push(b);
        borrow = next_borrow;
        i += 1;
    }
    proof {
        assert(v@.take(v@.len() as int) =~= v@);
        if borrow == 1 {
            lemma_le_value_bound(out@);
        }
    }
    out
}

impl Int {
    /// The sign and the canonical magnitude of this integer, for byte-level
    /// consumers such as the codec.
    pub(crate) fn sign_magnitude(&self) -> (r: (bool, &Vec<u8>))
        ensures
            canonical_le(r.1@),
            le_value(r.1@) == abs_of(self@),
            r.0 == (self@ < 0),
    {
        proof {
            use_type_invariant(self);
            if self.negative {
                lemma_canonical_pos(self.magnitude@);
            }
        }
        (self.negative, &self.magnitude)
    }

    /// Builds an integer from a sign and a little-endian magnitude, trimming
    /// leading zeros. A zero magnitude yields zero regardless of the sign.
    pub(crate) fn from_sign_magnitude(negative: bool, magnitude: Vec<u8>) -> (r: Int)
        ensures
            r@ == if negative {
                -(le_value(magnitude@) as int)
            } else {
                le_value(magnitude@) as int
            },
    {
        let mut mag = magnitude;
        while mag.len() > 0 && mag[mag.len() - 1] == 0
            invariant
                le_value(mag@) == le_value(magnitude@),
            decreases mag@.len(),
        {
            let ghost pre = mag@;
            proof {
                lemma_le_value_last(pre);
                assert(pre.last() * pow256((pre.len() - 1) as nat) == 0) by (nonlinear_arith)
                    requires
                        pre.last() == 0,
                ;
                assert(le_value(pre.drop_last()) == le_value(pre));
            }
            mag.pop();
            proof {
                assert(mag@ =~= pre.drop_last());
            }
        }
        let neg = negative && mag.len() > 0;
        proof {
            if mag@.len() == 0 {
                assert(le_value(mag@) == 0);
            }
        }
        Int { negative: neg, magnitude: mag }
    }

    /// The integer zero.
    pub fn zero() -> (r: Int)
        ensures
            r@ == 0,
    {
        let mag: Vec<u8> = Vec::new();
        proof {
            assert(le_value(mag@) == 0);
        }
        Int { negative: false, magnitude: mag }
    }

    /// The integer with a given unsigned 128-bit value.
    pub fn from_u128(x: u128) -> (r: Int)
        ensures
            r@ == x,
    {
        let mag = le_bytes_of_u128(x);
        Int { negative: false, magnitude: mag }
    }

    /// The integer with a given signed 128-bit value.
    pub fn from_i128(x: i128) -> (r: Int)
        ensures
            r@ == x,
    {
        if x >= 0 {
            Int::from_u128(x as u128)
        } else {
            let m: u128 = ((-(x + 1)) as u128) + 1;
            let mag = le_bytes_of_u128(m);
            proof {
                if mag@.len() == 0 {
                    assert(le_value(mag@) == 0);
                }
            }
            Int { negative: true, magnitude: mag }
        }
    }

    /// The integer with a given unsigned 64-bit value.
    pub fn from_u64(x: u64) -> (r: Int)
        ensures
            r@ == x,
    {
        Int::from_u128(x as u128)
    }

    /// The integer with a given signed 64-bit value.
    pub fn from_i64(x: i64) -> (r: Int)
        ensures
            r@ == x,
    {
        Int::from_i128(x as i128)
    }

    /// Whether this integer is strictly negative.
    pub fn is_negative(&self) -> (b: bool)
        ensures
            b == (self@ < 0),
    {
        let (neg, _) = self.sign_magnitude();
        neg
    }

    /// This integer plus one.
    pub fn plus_one(&self) -> (r: Int)
        ensures
            r@ == self@ + 1,
    {
        proof {
            use_type_invariant(self);
        }
        if !self.negative {
            let mag = le_bytes_inc(&self.magnitude);
            Int::from_sign_magnitude(false, mag)
        } else {
            proof {
                lemma_canonical_pos(self.magnitude@);
            }
            let mag = le_bytes_dec(&self.magnitude);
            Int::from_sign_magnitude(true, mag)
        }
    }

    /// This integer minus one.
    pub fn minus_one(&self) -> (r: Int)
        ensures
            r@ == self@ - 1,
    {
        proof {
            use_type_invariant(self);
        }
        if self.negative {
            let mag = le_bytes_inc(&self.magnitude);
            Int::from_sign_magnitude(true, mag)
        } else if self.magnitude.len() == 0 {
            let mut mag: Vec<u8> = Vec::new();
            mag.push(1);
            proof {
                assert(le_value(self.magnitude@) == 0);
                assert(mag@.skip(1) =~= Seq::<u8>::empty());
                assert(le_value(mag@) == mag@[0] + 256 * le_value(mag@.skip(1)));
            }
            Int { negative: true, magnitude: mag }
        } else {
            proof {
                lemma_canonical_pos(self.magnitude@);
            }
            let mag = le_bytes_dec(&self.magnitude);
            Int::from_sign_magnitude(false, mag)
        }
    }

    /// A copy of this integer.
    pub fn duplicate(&self) -> (r: Int)
        ensures
            r@ == self@,
    {
        proof {
            use_type_invariant(self);
        }
        Int { negative: self.negative, magnitude: copy_bytes(&self.magnitude) }
    }

    /// Narrows to a machine-sized index. The value must be in range: this is
    /// how bounds-checked container indexing reaches the machine word.
    pub fn to_usize(&self) -> (r: usize)
        requires
            0 <= self@ <= usize::MAX,
        ensures
            r == self@,
    {
        proof {
            use_type_invariant(self);
            if self.negative {
                lemma_canonical_pos(self.magnitude@);
            }
        }
        let v = &self.magnitude;
        let mut acc: usize = 0;
        let mut j: usize = v.len();
        while j > 0
            invariant
                j <= v@.len(),
                acc == le_value(v@.skip(j as int)),
                le_value(v@) <= usize::MAX,
                !self.negative,
                v == &self.magnitude,
            decreases j,
        {
            proof {
                lemma_le_value_split(v@, (j - 1) as nat);
                lemma_pow256_pos((j - 1) as nat);
                assert(v@.skip(j - 1).skip(1) =~= v@.skip(j as int));
                assert(le_value(v@.skip(j - 1)) <= pow256((j - 1) as nat) * le_value(
                    v@.skip(j - 1),
                )) by (nonlinear_arith)
                    requires
                        pow256((j - 1) as nat) >= 1,
                        le_value(v@.skip(j - 1)) >= 0,
                ;
            }
            j -= 1;
            acc = acc * 256 + (v[j] as usize);
        }
        proof {
            assert(v@.skip(0) =~= v@);
        }
        acc
    }
}

/// Compares two canonical magnitudes: strictly shorter means strictly
/// smaller, and equal lengths are decided by the most significant
/// differing byte.
fn mag_lt(a: &Vec<u8>, b: &Vec<u8>) -> (r: bool)
    requires
        canonical_le(a@),
        canonical_le(b@),
    ensures
        r == (le_value(a@) < le_value(b@)),
{
    if a.len() < b.len() {
        proof {
            lemma_le_value_bound(a@);
            lemma_canonical_pos(b@);
            lemma_pow256_mono(a@.len(), (b@.len() - 1) as nat);
        }
        return true;
    }
    if b.len() < a.len() {
        proof {
            lemma_le_value_bound(b@);
            lemma_canonical_pos(a@);
            lemma_pow256_mono(b@.len(), (a@.len() - 1) as nat);
        }
        return false;
    }
    let mut j: usize = a.len();
    while j > 0
        invariant
            j <= a@.len(),
            a@.len() == b@.len(),
            a@.skip(j as int) =~= b@.skip(j as int),
        decreases j,
    {
        j -= 1;
        if a[j] < b[j] {
            proof {
                lemma_le_value_msb_cmp(a@, b@, j as nat);
            }
            return true;
        }
        if b[j] < a[j] {
            proof {
                lemma_le_value_msb_cmp(b@, a@, j as nat);
            }
            return false;
        }
        proof {
            assert(a@.skip(j as int) =~= b@.skip(j as int)) by {
                assert forall|m: int| 0 <= m < a@.skip(j as int).len() implies a@.skip(j as int)[m]
                    == b@.skip(j as int)[m] by {
                    if m > 0 {
                        assert(a@.skip(j + 1)[m - 1] == b@.skip(j + 1)[m - 1]);
                    }
                }
            }
        }
    }
    proof {
        assert(a@.skip(0) =~= a@);
        assert(b@.skip(0) =~= b@);
    }
    false
}

impl Int {
    /// Whether this value is strictly below `other`: the total ordering of
    /// the mathematical values.
    pub fn lt(&self, other: &Int) -> (r: bool)
        ensures
            r == (self@ < other@),
    {
        let (sn, sm) = self.sign_magnitude();
        let (on, om) = other.sign_magnitude();
        if sn && !on {
            true
        } else if !sn && on {
            false
        } else if !sn {
            mag_lt(sm, om)
        } else {
            mag_lt(om, sm)
        }
    }
}

impl Int {
    /// This value shifted left by `k` whole bytes: exact multiplication by
    /// `pow256(k)`, at any width.
    pub fn shl_bytes(&self, k: usize) -> (r: Int)
        ensures
            r@ == self@ * pow256(k as nat),
    {
        let (neg, mag) = self.sign_magnitude();
        let mut out: Vec<u8> = Vec::new();
        let mut i: usize = 0;
        while i < k
            invariant
                i <= k,
                out@.len() == i,
                forall|j: int| 0 <= j < i ==> out@[j] == 0,
            decreases k - i,
        {
            out.push(0);
            i += 1;
        }
        let mut j: usize = 0;
        while j < mag.len()
            invariant
                j <= mag@.len(),
                out@.len() == k + j,
                forall|m: int| 0 <= m < k ==> out@[m] == 0,
                forall|m: int| 0 <= m < j ==> out@[k + m] == mag@[m],
            decreases mag@.len() - j,
        {
            out.push(mag[j]);
            j += 1;
        }
        proof {
            lemma_le_value_split(out@, k as nat);
            lemma_le_value_zero(out@.take(k as int));
            assert(forall|m: int| 0 <= m < k ==> out@.take(k as int)[m] == 0);
            assert(out@.skip(k as int) =~= mag@);
            assert(le_value(out@) == pow256(k as nat) * abs_of(self@));
            let p = pow256(k as nat) as int;
            if self@ >= 0 {
                assert(self@ * p == p * (abs_of(self@) as int)) by (nonlinear_arith)
                    requires
                        (abs_of(self@) as int) == self@,
                ;
            } else {
                assert(self@ * p == -(p * (abs_of(self@) as int))) by (nonlinear_arith)
                    requires
                        (abs_of(self@) as int) == -self@,
                ;
            }
        }
        Int::from_sign_magnitude(neg, out)
    }

    /// This value shifted right by `k` whole bytes: Euclidean division by
    /// `pow256(k)`, for a non-negative value, as the codec reads bytes out
    /// of one.
    pub fn shr_bytes(&self, k: usize) -> (r: Int)
        requires
            self@ >= 0,
        ensures
            r@ == self@ / (pow256(k as nat) as int),
    {
        let (_, mag) = self.sign_magnitude();
        if k >= mag.len() {
            proof {
                lemma_le_value_bound(mag@);
                lemma_pow256_mono(mag@.len(), k as nat);
                assert(0 * (pow256(k as nat) as int) == 0) by (nonlinear_arith);
                vstd::arithmetic::div_mod::lemma_fundamental_div_mod_converse(
                    self@,
                    pow256(k as nat) as int,
                    0,
                    self@,
                );
            }
            Int::zero()
        } else {
            let mut out: Vec<u8> = Vec::new();
            let mut j: usize = k;
            while j < mag.len()
                invariant
                    k <= j <= mag@.len(),
                    out@.len() == j - k,
                    forall|m: int| 0 <= m < out@.len() ==> out@[m] == mag@[k + m],
                decreases mag@.len() - j,
            {
                out.push(mag[j]);
                j += 1;
            }
            proof {
                assert(out@ =~= mag@.skip(k as int));
                lemma_le_value_split(mag@, k as nat);
                lemma_le_value_bound(mag@.take(k as int));
                lemma_pow256_pos(k as nat);
                assert((le_value(out@) as int) * (pow256(k as nat) as int) == (pow256(
                    k as nat,
                ) as int) * (le_value(out@) as int)) by (nonlinear_arith);
                vstd::arithmetic::div_mod::lemma_fundamental_div_mod_converse(
                    self@,
                    pow256(k as nat) as int,
                    le_value(out@) as int,
                    le_value(mag@.take(k as int)) as int,
                );
            }
            Int::from_sign_magnitude(false, out)
        }
    }

    /// The low `k` bytes of this value: the remainder modulo `pow256(k)` —
    /// the bitwise-and with a whole-byte scalar mask, obtained via modulo.
    /// Defined for a non-negative value.
    pub fn rem_bytes(&self, k: usize) -> (r: Int)
        requires
            self@ >= 0,
        ensures
            r@ == self@ % (pow256(k as nat) as int),
    {
        let (_, mag) = self.sign_magnitude();
        if k >= mag.len() {
            proof {
                lemma_le_value_bound(mag@);
                lemma_pow256_mono(mag@.len(), k as nat);
                assert(0 * (pow256(k as nat) as int) == 0) by (nonlinear_arith);
                vstd::arithmetic::div_mod::lemma_fundamental_div_mod_converse(
                    self@,
                    pow256(k as nat) as int,
                    0,
                    self@,
                );
            }
            self.duplicate()
        } else {
            let mut out: Vec<u8> = Vec::new();
            let mut m: usize = 0;
            while m < k
                invariant
                    m <= k,
                    k <= mag@.len(),
                    out@.len() == m,
                    forall|j: int| 0 <= j < m ==> out@[j] == mag@[j],
                decreases k - m,
            {
                out.push(mag[m]);
                m += 1;
            }
            proof {
                assert(out@ =~= mag@.take(k as int));
                lemma_le_value_split(mag@, k as nat);
                lemma_le_value_bound(mag@.take(k as int));
                lemma_pow256_pos(k as nat);
                assert((le_value(mag@.skip(k as int)) as int) * (pow256(k as nat) as int) == (
                pow256(k as nat) as int) * (le_value(mag@.skip(k as int)) as int))
                    by (nonlinear_arith);
                vstd::arithmetic::div_mod::lemma_fundamental_div_mod_converse(
                    self@,
                    pow256(k as nat) as int,
                    le_value(mag@.skip(k as int)) as int,
                    le_value(mag@.take(k as int)) as int,
                );
            }
            Int::from_sign_magnitude(false, out)
        }
    }

    /// 2 to the power `bits`: the modulus of a `bits`-wide representation.
    /// The exponent is capped so the magnitude fits addressable memory.
    pub fn power_of_two(bits: u64) -> (r: Int)
        requires
            bits <= 0x0FFF_FFFF,
        ensures
            r@ == pow2(bits as nat),
    {
        let q = (bits / 8) as usize;
        let rem = bits % 8;
        let byte: u8 = if rem == 0 {
            1
        } else if rem == 1 {
            2
        } else if rem == 2 {
            4
        } else if rem == 3 {
            8
        } else if rem == 4 {
            16
        } else if rem == 5 {
            32
        } else if rem == 6 {
            64
        } else {
            128
        };
        proof {
            assert(byte as nat == pow2((bits % 8) as nat)) by {
                reveal_with_fuel(pow2, 9);
            }
        }
        let mut out: Vec<u8> = Vec::new();
        let mut i: usize = 0;
        while i < q
            invariant
                i <= q,
                out@.len() == i,
                forall|j: int| 0 <= j < i ==> out@[j] == 0,
            decreases q - i,
        {
            out.push(0);
            i += 1;
        }
        out.push(byte);
        proof {
            lemma_le_value_split(out@, q as nat);
            lemma_le_value_zero(out@.take(q as int));
            assert(forall|m: int| 0 <= m < q ==> out@.take(q as int)[m] == 0);
            assert(out@.skip(q as int) =~= seq![byte]);
            assert(le_value(seq![byte]) == byte) by {
                assert(seq![byte].len() == 1);
                assert(seq![byte][0] == byte);
                assert(seq![byte].skip(1) =~= Seq::<u8>::empty());
                assert(le_value(seq![byte]) == seq![byte][0] + 256 * le_value(seq![byte].skip(1)));
            }
            lemma_pow2_bytes(q as nat);
            lemma_pow2_adds(8 * (q as nat), (bits % 8) as nat);
            assert(8 * (q as nat) + (bits % 8) as nat == bits as nat);
        }
        Int { negative: false, magnitude: out }
    }
}

impl PartialEq for Int {
    /// Equality of the mathematical values.
    fn eq(&self, other: &Int) -> (r: bool) {
        proof {
            use_type_invariant(self);
            use_type_invariant(other);
            if self.negative {
                lemma_canonical_pos(self.magnitude@);
            }
            if other.negative {
                lemma_canonical_pos(other.magnitude@);
            }
        }
        if self.negative != other.negative {
            false
        } else {
            let r = bytes_eq(&self.magnitude, &other.magnitude);
            proof {
                if !r && self@ == other@ {
                    lemma_canonical_le_inj(self.magnitude@, other.magnitude@);
                }
            }
            r
        }
    }
}

impl vstd::std_specs::cmp::PartialEqSpecImpl for Int {
    open spec fn obeys_eq_spec() -> bool {
        true
    }

    open spec fn eq_spec(&self, other: &Int) -> bool {
        self@ == other@
    }
}

} // verus!
