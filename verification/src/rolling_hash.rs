//! A polynomial rolling hash over a sliding window: the hash of a
//! window `w` at front offset `o` is the sum of `w[i] * B^(o+i)`,
//! accumulated in wrapping (modulo `2^64`) machine arithmetic and
//! reduced modulo `M` when a snapshot is taken. Two snapshots taken at
//! different offsets are compared after re-aligning the earlier one by
//! `B^(offset difference)`.

use vstd::prelude::*;

use vstd::arithmetic::div_mod::{
    lemma_mod_sub_multiples_vanish, lemma_mul_mod_noop_general, lemma_mul_mod_noop_left,
    lemma_mul_mod_noop_right, lemma_small_mod, lemma_sub_mod_noop,
};
use vstd::arithmetic::mul::{lemma_mul_is_associative, lemma_mul_is_commutative};
use vstd::arithmetic::power::{
    lemma_pow_adds, lemma_pow_multiplies, lemma_pow_positive, lemma_square_is_pow2, pow,
};

verus! {

/// The machine modulus of wrapping `u64` arithmetic.
pub open spec fn m64() -> int {
    0x1_0000_0000_0000_0000
}

/// The unreduced polynomial hash of a window whose front sits at
/// `offset`: the sum of `word[i] * base^(offset + i)`.
pub open spec fn poly_hash(word: Seq<u64>, base: u64, offset: nat) -> int
    decreases word.len(),
{
    if word.len() == 0 {
        0
    } else {
        word[0] * pow(base as int, offset) + poly_hash(word.drop_first(), base, offset + 1)
    }
}

pub proof fn lemma_poly_nonneg(word: Seq<u64>, base: u64, offset: nat)
    ensures
        poly_hash(word, base, offset) >= 0,
    decreases word.len(),
{
    if word.len() > 0 {
        assert(pow(base as int, offset) >= 0) by {
            reveal(pow);
            if base == 0 {
                if offset != 0 {
                    vstd::arithmetic::power::lemma0_pow(offset);
                }
            } else {
                lemma_pow_positive(base as int, offset);
            }
        }
        vstd::arithmetic::mul::lemma_mul_nonnegative(word[0] as int, pow(base as int, offset));
        lemma_poly_nonneg(word.drop_first(), base, offset + 1);
    }
}

/// Appending one value adds its weighted contribution.
pub proof fn lemma_poly_push(word: Seq<u64>, base: u64, offset: nat, v: u64)
    ensures
        poly_hash(word.push(v), base, offset) == poly_hash(word, base, offset) + v * pow(
            base as int,
            offset + word.len(),
        ),
    decreases word.len(),
{
    reveal(pow);
    if word.len() == 0 {
        assert(word.push(v)[0] == v);
        assert(word.push(v).drop_first() =~= Seq::<u64>::empty());
        assert(poly_hash(word.push(v), base, offset) == v * pow(base as int, offset)
            + poly_hash(word.push(v).drop_first(), base, offset + 1));
        assert(poly_hash(word.push(v).drop_first(), base, offset + 1) == 0);
        assert(poly_hash(word, base, offset) == 0);
        assert(offset + word.len() == offset);
    } else {
        assert(word.push(v).drop_first() =~= word.drop_first().push(v));
        assert(word.push(v)[0] == word[0]);
        lemma_poly_push(word.drop_first(), base, offset + 1, v);
        assert(poly_hash(word.push(v), base, offset) == word[0] * pow(base as int, offset)
            + poly_hash(word.drop_first().push(v), base, offset + 1));
        assert(poly_hash(word, base, offset) == word[0] * pow(base as int, offset) + poly_hash(
            word.drop_first(),
            base,
            offset + 1,
        ));
        assert(offset + 1 + word.drop_first().len() == offset + word.len());
    }
}

/// Shifting the front offset multiplies the whole hash by a power of
/// the base.
pub proof fn lemma_poly_shift(word: Seq<u64>, base: u64, off1: nat, off2: nat)
    ensures
        poly_hash(word, base, off1 + off2) == poly_hash(word, base, off1) * pow(
            base as int,
            off2,
        ),
    decreases word.len(),
{
    reveal(pow);
    if word.len() == 0 {
    } else {
        let b = base as int;
        let rest = word.drop_first();
        lemma_poly_shift(rest, base, off1 + 1, off2);
        lemma_pow_adds(b, off1, off2);
        lemma_pow_adds(b, off1 + 1, off2);
        assert(word[0] * pow(b, (off1 + off2) as nat) == (word[0] * pow(b, off1)) * pow(
            b,
            off2,
        )) by {
            lemma_mul_is_associative(word[0] as int, pow(b, off1), pow(b, off2));
        }
        assert((word[0] * pow(b, off1) + poly_hash(rest, base, off1 + 1)) * pow(b, off2) == (
        word[0] * pow(b, off1)) * pow(b, off2) + poly_hash(rest, base, off1 + 1) * pow(b, off2))
            by {
            vstd::arithmetic::mul::lemma_mul_is_distributive_add_other_way(
                pow(b, off2),
                word[0] * pow(b, off1),
                poly_hash(rest, base, off1 + 1),
            );
        }
    }
}

/// Wrapping addition of `u64` values is addition modulo `2^64`.
pub proof fn lemma_wrapping_add_is_mod(x: u64, y: u64)
    ensures
        vstd::wrapping::u64_specs::wrapping_add(x, y) as int == (x + y) % m64(),
{
    if x + y <= u64::MAX {
        lemma_small_mod((x + y) as nat, m64() as nat);
    } else {
        lemma_mod_sub_multiples_vanish(x + y - m64(), m64());
        lemma_small_mod((x + y - m64()) as nat, m64() as nat);
    }
}

/// Wrapping subtraction of `u64` values is subtraction modulo `2^64`.
pub proof fn lemma_wrapping_sub_is_mod(x: u64, y: u64)
    ensures
        vstd::wrapping::u64_specs::wrapping_sub(x, y) as int == (x - y) % m64(),
{
    if x - y < 0 {
        lemma_mod_sub_multiples_vanish(x - y, m64());
        lemma_small_mod((x - y + m64()) as nat, m64() as nat);
    } else {
        lemma_small_mod((x - y) as nat, m64() as nat);
    }
}

/// `base^e` in wrapping `u64` arithmetic, by squaring.
pub fn wrap_pow(base: u64, e: u64) -> (r: u64)
    ensures
        r as int == pow(base as int, e as nat) % m64(),
{
    let mut result: u64 = 1;
    let mut b = base;
    let mut exp = e;
    proof {
        reveal(pow);
        lemma_small_mod(1nat, m64() as nat);
        assert(pow(base as int, 0nat) == 1);
    }
    while exp > 0
        invariant
            (result * pow(b as int, exp as nat)) % m64() == pow(base as int, e as nat) % m64(),
        decreases exp,
    {
        let ghost r0 = result as int;
        let ghost b0 = b as int;
        let ghost e0 = exp as nat;
        if exp & 1 == 1 {
            result = result.wrapping_mul(b);
        }
        b = b.wrapping_mul(b);
        proof {
            assert(exp & 1 == exp % 2) by (bit_vector);
        }
        exp = exp / 2;
        proof {
            reveal(pow);
            let m = m64();
            let k = exp as nat;
            // b0^(2k) == (b0*b0)^k
            lemma_square_is_pow2(b0);
            lemma_pow_multiplies(b0, 2, k);
            assert(pow(b0 * b0, k) == pow(b0, 2 * k)) by {
                assert(pow(b0, 2) == b0 * b0);
                assert(pow(pow(b0, 2), k) == pow(b0, 2 * k));
            }
            // the new base is reduced modulo m; powers ignore that
            assert(pow(b as int, k) % m == pow(b0 * b0, k) % m) by {
                assert(b as int == (b0 * b0) % m);
                vstd::arithmetic::power::lemma_pow_mod_noop(b0 * b0, k, m);
            }
            if e0 % 2 == 1 {
                assert(e0 == 2 * k + 1);
                assert(result as int == (r0 * b0) % m);
                assert((result * pow(b as int, k)) % m == ((r0 * b0) % m * (pow(b0 * b0, k)
                    % m)) % m) by {
                    lemma_mul_mod_noop_right((r0 * b0) % m, pow(b as int, k), m);
                    lemma_mul_mod_noop_right((r0 * b0) % m, pow(b0 * b0, k), m);
                }
                assert(((r0 * b0) % m * (pow(b0 * b0, k) % m)) % m == (r0 * b0 * pow(b0 * b0, k))
                    % m) by {
                    lemma_mul_mod_noop_general(r0 * b0, pow(b0 * b0, k), m);
                }
                assert(r0 * b0 * pow(b0, 2 * k) == r0 * pow(b0, e0)) by {
                    lemma_pow_adds(b0, 2 * k, 1);
                    assert(pow(b0, 1) == b0 * pow(b0, 0));
                    assert(pow(b0, e0) == pow(b0, 2 * k) * b0);
                    lemma_mul_is_associative(r0, b0, pow(b0, 2 * k));
                    lemma_mul_is_commutative(b0, pow(b0, 2 * k));
                    lemma_mul_is_associative(r0, pow(b0, 2 * k), b0);
                }
            } else {
                assert(e0 == 2 * k);
                assert((result * pow(b as int, k)) % m == (r0 * (pow(b0 * b0, k) % m)) % m) by {
                    lemma_mul_mod_noop_right(r0, pow(b as int, k), m);
                    lemma_mul_mod_noop_right(r0, pow(b0 * b0, k), m);
                }
                assert((r0 * (pow(b0 * b0, k) % m)) % m == (r0 * pow(b0 * b0, k)) % m) by {
                    lemma_mul_mod_noop_right(r0, pow(b0 * b0, k), m);
                }
            }
        }
    }
    proof {
        reveal(pow);
        assert(pow(b as int, 0nat) == 1);
    }
    result
}

/// An immutable snapshot: a hash value paired with the front offset
/// it was taken at.
#[derive(Debug, PartialEq, Eq, Structural, Clone, Copy)]
pub struct Hashed {
    hash: u64,
    offset: u64,
}

impl Hashed {
    pub closed spec fn spec_hash(&self) -> u64 {
        self.hash
    }

    pub closed spec fn spec_offset(&self) -> u64 {
        self.offset
    }
}

/// Whether two snapshots agree after the earlier one is re-aligned by
/// the offset difference; both sides are reduced by the modulus.
pub open spec fn compare_spec(l: Hashed, r: Hashed, base: u64, modulus: u64) -> bool
    recommends
        modulus >= 1,
{
    let lo = if l.spec_offset() < r.spec_offset() {
        l
    } else {
        r
    };
    let hi = if l.spec_offset() < r.spec_offset() {
        r
    } else {
        l
    };
    ((lo.spec_hash() * pow(base as int, (hi.spec_offset() - lo.spec_offset()) as nat)) % m64())
        % (modulus as int) == hi.spec_hash() as int % (modulus as int)
}

/// The rolling-hash state: configuration, window contents, running
/// wrapped hash, and the count of values ever evicted from the front.
pub struct RollingHasher {
    modulus: u64,
    alphabet_size: u64,
    offset: u64,
    current_word: Vec<u64>,
    hash: u64,
}

impl RollingHasher {
    pub closed spec fn spec_modulus(&self) -> u64 {
        self.modulus
    }

    pub closed spec fn spec_base(&self) -> u64 {
        self.alphabet_size
    }

    pub closed spec fn spec_offset(&self) -> u64 {
        self.offset
    }

    pub closed spec fn spec_word(&self) -> Seq<u64> {
        self.current_word@
    }

    /// The running hash always equals the wrapped polynomial hash of
    /// the current window at the current offset.
    pub closed spec fn wf(&self) -> bool {
        &&& self.modulus >= 1
        &&& self.offset + self.current_word@.len() <= u64::MAX
        &&& self.hash as int == poly_hash(self.current_word@, self.alphabet_size, self.offset as nat)
            % m64()
    }

    /// A fresh hasher for the given modulus and alphabet base.
    pub fn new(modulus: u64, alphabet_size: u64) -> (r: RollingHasher)
        requires
            modulus >= 1,
        ensures
            r.wf(),
            r.spec_modulus() == modulus,
            r.spec_base() == alphabet_size,
            r.spec_offset() == 0,
            r.spec_word() == Seq::<u64>::empty(),
    {
        let r = RollingHasher {
            modulus,
            alphabet_size,
            offset: 0,
            current_word: Vec::new(),
            hash: 0,
        };
        proof {
            assert(r.current_word@ =~= Seq::<u64>::empty());
            lemma_small_mod(0nat, m64() as nat);
        }
        r
    }

    /// Snapshots the current window hash, reduced by the modulus.
    pub fn hash(&self) -> (r: Hashed)
        requires
            self.wf(),
        ensures
            r.spec_offset() == self.spec_offset(),
            r.spec_hash() as int == (poly_hash(
                self.spec_word(),
                self.spec_base(),
                self.spec_offset() as nat,
            ) % m64()) % (self.spec_modulus() as int),
            r.spec_hash() < self.spec_modulus(),
    {
        Hashed { hash: self.hash % self.modulus, offset: self.offset }
    }

    /// Hashes a fixed pattern at offset zero; the accumulated value is
    /// not reduced by the modulus.
    pub fn hash_pattern(&self, pattern: &[u64]) -> (r: Hashed)
        requires
            self.wf(),
        ensures
            r.spec_offset() == 0,
            r.spec_hash() as int == poly_hash(pattern@, self.spec_base(), 0) % m64(),
    {
        let mut h: u64 = 0;
        let len = pattern.len();
        let mut i: usize = 0;
        proof {
            assert(pattern@.subrange(0, 0) =~= Seq::<u64>::empty());
            lemma_small_mod(0nat, m64() as nat);
        }
        while i < len
            invariant
                self.wf(),
                i <= len,
                len == pattern@.len(),
                i <= u64::MAX,
                h as int == poly_hash(pattern@.subrange(0, i as int), self.spec_base(), 0)
                    % m64(),
            decreases len - i,
        {
            let v = pattern[i];
            let pw = wrap_pow(self.alphabet_size, i as u64);
            let ghost h0 = h as int;
            let ghost prefix = pattern@.subrange(0, i as int);
            let term = v.wrapping_mul(pw);
            h = h.wrapping_add(term);
            proof {
                let m = m64();
                let b = self.alphabet_size;
                let pv = pow(b as int, i as nat);
                assert(pattern@.subrange(0, i + 1 as int) =~= prefix.push(v));
                lemma_poly_push(prefix, b, 0nat, v);
                assert(prefix.len() == i as nat);
                assert(term as int == (v * pv) % m) by {
                    lemma_mul_mod_noop_right(v as int, pv, m);
                }
                lemma_wrapping_add_is_mod(
                    ((h0) as u64),
                    term,
                );
                assert(h as int == (h0 + (v * pv) % m) % m);
                assert((h0 + (v * pv) % m) % m == (poly_hash(prefix, b, 0) + v * pv) % m) by {
                    vstd::arithmetic::div_mod::lemma_add_mod_noop(
                        poly_hash(prefix, b, 0),
                        v * pv,
                        m,
                    );
                    lemma_poly_nonneg(prefix, b, 0);
                    lemma_small_mod(0nat, m as nat);
                    vstd::arithmetic::div_mod::lemma_mod_twice(poly_hash(prefix, b, 0), m);
                }
            }
            i += 1;
        }
        proof {
            assert(pattern@.subrange(0, len as int) =~= pattern@);
        }
        Hashed { hash: h, offset: 0 }
    }

    /// Compares two snapshots taken with this hasher's configuration,
    /// re-aligning the earlier-offset one. A true result is a
    /// candidate match only; callers re-check the literal values.
    pub fn compare(&self, lhs: &Hashed, rhs: &Hashed) -> (r: bool)
        requires
            self.wf(),
        ensures
            r == compare_spec(*lhs, *rhs, self.spec_base(), self.spec_modulus()),
    {
        let (lo, hi) = if lhs.offset < rhs.offset {
            (lhs, rhs)
        } else {
            (rhs, lhs)
        };
        let pw = wrap_pow(self.alphabet_size, hi.offset - lo.offset);
        let shifted = lo.hash.wrapping_mul(pw) % self.modulus;
        proof {
            let m = m64();
            let d = (hi.offset - lo.offset) as nat;
            let pv = pow(self.alphabet_size as int, d);
            assert(lo.hash.wrapping_mul(pw) as int == (lo.hash * pv) % m) by {
                lemma_mul_mod_noop_right(lo.hash as int, pv, m);
            }
        }
        shifted == hi.hash % self.modulus
    }

    /// A well-formed hasher has a positive modulus, so every snapshot
    /// it produces carries a value below that modulus.
    pub proof fn lemma_modulus_positive(&self)
        requires
            self.wf(),
        ensures
            self.spec_modulus() >= 1,
    {
    }

    /// Appends a value to the back of the window, adding its weighted
    /// contribution to the running hash.
    pub fn add_last(&mut self, value: u64)
        requires
            old(self).wf(),
            old(self).spec_offset() + old(self).spec_word().len() < u64::MAX,
        ensures
            final(self).wf(),
            final(self).spec_word() == old(self).spec_word().push(value),
            final(self).spec_offset() == old(self).spec_offset(),
            final(self).spec_modulus() == old(self).spec_modulus(),
            final(self).spec_base() == old(self).spec_base(),
    {
        let ghost w0 = self.current_word@;
        let ghost h0 = self.hash as int;
        let i = self.offset + (self.current_word.len() as u64);
        let pw = wrap_pow(self.alphabet_size, i);
        self.current_word.push(value);
        let term = value.wrapping_mul(pw);
        self.hash = self.hash.wrapping_add(term);
        proof {
            let m = m64();
            let b = self.alphabet_size;
            let e = (self.offset + w0.len()) as nat;
            let pv = pow(b as int, e);
            lemma_poly_push(w0, b, self.offset as nat, value);
            assert(term as int == (value * pv) % m) by {
                lemma_mul_mod_noop_right(value as int, pv, m);
            }
            lemma_wrapping_add_is_mod((h0 as u64), term);
            assert(self.hash as int == (h0 + (value * pv) % m) % m);
            assert((h0 + (value * pv) % m) % m == (poly_hash(w0, b, self.offset as nat) + value
                * pv) % m) by {
                vstd::arithmetic::div_mod::lemma_add_mod_noop(
                    poly_hash(w0, b, self.offset as nat),
                    value * pv,
                    m,
                );
                lemma_poly_nonneg(w0, b, self.offset as nat);
                vstd::arithmetic::div_mod::lemma_mod_twice(
                    poly_hash(w0, b, self.offset as nat),
                    m,
                );
            }
        }
    }

    /// Removes the front value, subtracting its contribution and
    /// advancing the front offset.
    pub fn remove_first(&mut self)
        requires
            old(self).wf(),
            old(self).spec_word().len() > 0,
        ensures
            final(self).wf(),
            final(self).spec_word() == old(self).spec_word().drop_first(),
            final(self).spec_offset() == old(self).spec_offset() + 1,
            final(self).spec_modulus() == old(self).spec_modulus(),
            final(self).spec_base() == old(self).spec_base(),
    {
        let ghost w0 = self.current_word@;
        let ghost h0 = self.hash as int;
        let value = self.current_word.remove(0);
        let pw = wrap_pow(self.alphabet_size, self.offset);
        let term = value.wrapping_mul(pw);
        self.hash = self.hash.wrapping_sub(term);
        self.offset = self.offset + 1;
        proof {
            let m = m64();
            let b = self.alphabet_size;
            let off = (self.offset - 1) as nat;
            let pv = pow(b as int, off);
            assert(self.current_word@ =~= w0.drop_first());
            assert(value == w0[0]);
            assert(poly_hash(w0, b, off) == value * pv + poly_hash(w0.drop_first(), b, off + 1));
            assert(term as int == (value * pv) % m) by {
                lemma_mul_mod_noop_right(value as int, pv, m);
            }
            lemma_wrapping_sub_is_mod((h0 as u64), term);
            assert(self.hash as int == (h0 - (value * pv) % m) % m);
            assert((h0 - (value * pv) % m) % m == (poly_hash(w0, b, off) - value * pv) % m) by {
                lemma_sub_mod_noop(poly_hash(w0, b, off), value * pv, m);
                lemma_poly_nonneg(w0, b, off);
                vstd::arithmetic::div_mod::lemma_mod_twice(poly_hash(w0, b, off), m);
            }
        }
    }

    /// Slides the window one step: appends `value` and evicts the
    /// front element.
    pub fn advance(&mut self, value: u64)
        requires
            old(self).wf(),
            old(self).spec_word().len() > 0,
            old(self).spec_offset() + old(self).spec_word().len() < u64::MAX,
        ensures
            final(self).wf(),
            final(self).spec_word() == old(self).spec_word().drop_first().push(value),
            final(self).spec_offset() == old(self).spec_offset() + 1,
            final(self).spec_modulus() == old(self).spec_modulus(),
            final(self).spec_base() == old(self).spec_base(),
    {
        self.add_last(value);
        self.remove_first();
        proof {
            assert(old(self).spec_word().push(value).drop_first() =~= old(
                self,
            ).spec_word().drop_first().push(value));
        }
    }

    /// The snapshot's value re-aligned to `pos`, which must not lie
    /// before the snapshot's own offset.
    pub fn hash_value_at(&self, h: &Hashed, pos: u64) -> (r: u64)
        requires
            self.wf(),
            pos >= h.spec_offset(),
        ensures
            r as int == ((h.spec_hash() * pow(
                self.spec_base() as int,
                (pos - h.spec_offset()) as nat,
            )) % m64()) % (self.spec_modulus() as int),
    {
        let diff = pos - h.offset;
        let pw = wrap_pow(self.alphabet_size, diff);
        let shifted = h.hash.wrapping_mul(pw);
        proof {
            let m = m64();
            let pv = pow(self.alphabet_size as int, diff as nat);
            assert(shifted as int == (h.hash * pv) % m) by {
                lemma_mul_mod_noop_right(h.hash as int, pv, m);
            }
        }
        shifted % self.modulus
    }

    /// The snapshot's value re-aligned to this hasher's current
    /// offset.
    pub fn hash_value_at_caret(&self, h: &Hashed) -> (r: u64)
        requires
            self.wf(),
            self.spec_offset() >= h.spec_offset(),
        ensures
            r as int == ((h.spec_hash() * pow(
                self.spec_base() as int,
                (self.spec_offset() - h.spec_offset()) as nat,
            )) % m64()) % (self.spec_modulus() as int),
    {
        self.hash_value_at(h, self.offset)
    }
}

/// Two snapshots of the same window contents, taken at any two
/// offsets, compare equal once the earlier one is re-aligned —
/// provided the accumulations and the re-alignment stay below the
/// wrap-around threshold of the machine arithmetic.
pub proof fn lemma_compare_same_window(
    word: Seq<u64>,
    base: u64,
    modulus: u64,
    h1: Hashed,
    h2: Hashed,
)
    requires
        modulus >= 1,
        base >= 1,
        h1.spec_offset() <= h2.spec_offset(),
        h1.spec_hash() as int == (poly_hash(word, base, h1.spec_offset() as nat) % m64()) % (
        modulus as int),
        h2.spec_hash() as int == (poly_hash(word, base, h2.spec_offset() as nat) % m64()) % (
        modulus as int),
        poly_hash(word, base, h2.spec_offset() as nat) < m64(),
        h1.spec_hash() * pow(base as int, (h2.spec_offset() - h1.spec_offset()) as nat) < m64(),
    ensures
        compare_spec(h1, h2, base, modulus),
{
    reveal(pow);
    let m = m64();
    let md = modulus as int;
    let o1 = h1.spec_offset() as nat;
    let o2 = h2.spec_offset() as nat;
    let d = (o2 - o1) as nat;
    let p1 = poly_hash(word, base, o1);
    let p2 = poly_hash(word, base, o2);
    let pv = pow(base as int, d);
    lemma_poly_nonneg(word, base, o1);
    lemma_poly_nonneg(word, base, o2);
    lemma_pow_positive(base as int, d);
    // p2 == p1 * base^d
    lemma_poly_shift(word, base, o1, d);
    assert(p2 == p1 * pv);
    // p1 <= p2 < 2^64, so no accumulation wrapped
    assert(p1 <= p2) by {
        assert(pv >= 1);
        vstd::arithmetic::mul::lemma_mul_inequality(1, pv, p1);
        lemma_mul_is_commutative(p1, pv);
    }
    lemma_small_mod(p1 as nat, m as nat);
    lemma_small_mod(p2 as nat, m as nat);
    assert(h1.spec_hash() as int == p1 % md);
    assert(h2.spec_hash() as int == p2 % md);
    // the re-aligned value also stays below the wrap-around threshold
    vstd::arithmetic::mul::lemma_mul_nonnegative(h1.spec_hash() as int, pv);
    lemma_small_mod((h1.spec_hash() * pv) as nat, m as nat);
    assert((h1.spec_hash() * pv) % m == h1.spec_hash() * pv);
    assert(((h1.spec_hash() * pv) % m) % md == (h1.spec_hash() * pv) % md);
    assert((h1.spec_hash() * pv) % md == (p1 * pv) % md) by {
        vstd::arithmetic::div_mod::lemma_mod_twice(p1, md);
        lemma_mul_mod_noop_left(p1 % md, pv, md);
        lemma_mul_mod_noop_left(p1, pv, md);
    }
    assert((p1 * pv) % md == h2.spec_hash() as int);
    vstd::arithmetic::div_mod::lemma_mod_twice(p2, md);
    vstd::arithmetic::div_mod::lemma_mod_twice(p1, md);
    assert(h2.spec_hash() as int % md == h2.spec_hash() as int);
    assert(h1.spec_hash() as int % md == h1.spec_hash() as int);
    if h1.spec_offset() == h2.spec_offset() {
        assert(pow(base as int, 0nat) == 1);
        assert(p1 == p2);
        assert(h1.spec_hash() == h2.spec_hash());
        lemma_small_mod(h2.spec_hash() as nat, m as nat);
    }
}

/// A pattern accumulated at offset zero and left un-reduced by the
/// modulus matches the snapshot of a window with the same contents,
/// taken at any later offset, unconditionally: re-aligning by a power
/// of the base commutes with the wrap-around of the machine
/// accumulation, so no true occurrence is ever missed.
pub proof fn lemma_pattern_matches_window(
    word: Seq<u64>,
    base: u64,
    modulus: u64,
    hp: Hashed,
    hw: Hashed,
)
    requires
        modulus >= 1,
        hp.spec_offset() == 0,
        hp.spec_hash() as int == poly_hash(word, base, 0) % m64(),
        hw.spec_hash() as int == (poly_hash(word, base, hw.spec_offset() as nat) % m64()) % (
        modulus as int),
    ensures
        compare_spec(hw, hp, base, modulus),
        compare_spec(hp, hw, base, modulus),
{
    reveal(pow);
    let m = m64();
    let md = modulus as int;
    let o2 = hw.spec_offset() as nat;
    let p0 = poly_hash(word, base, 0);
    let p2 = poly_hash(word, base, o2);
    let pv = pow(base as int, o2);
    lemma_poly_nonneg(word, base, 0);
    lemma_poly_nonneg(word, base, o2);
    lemma_poly_shift(word, base, 0, o2);
    assert(p2 == p0 * pv);
    // re-alignment commutes with the machine wrap-around
    assert((hp.spec_hash() * pv) % m == (p0 * pv) % m) by {
        lemma_mul_mod_noop_left(p0, pv, m);
    }
    assert((p0 * pv) % m == p2 % m);
    vstd::arithmetic::div_mod::lemma_mod_twice(p2 % m, md);
    assert(hw.spec_hash() as int % md == hw.spec_hash() as int);
    assert(((hp.spec_hash() * pv) % m) % md == hw.spec_hash() as int % md);
    if o2 == 0 {
        // at equal offsets the snapshot side is re-aligned by one
        assert(pv == 1);
        assert(hw.spec_hash() < m) by {
            assert(hw.spec_hash() as int == (p0 % m) % md);
        }
        lemma_small_mod(hw.spec_hash() as nat, m as nat);
        assert(hw.spec_hash() * 1 == hw.spec_hash()) by {
            lemma_mul_is_commutative(hw.spec_hash() as int, 1);
        }
        vstd::arithmetic::div_mod::lemma_mod_twice(p0 % m, md);
        assert(((hw.spec_hash() * pow(base as int, 0nat)) % m) % md == hp.spec_hash() as int
            % md);
    }
}

} // verus!
