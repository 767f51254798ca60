//! Arithmetic in the prime field F_p, where `p` is the order of the scalar
//! field of the alt_bn128 pairing curve (a 254-bit prime).
//!
//! Elements are held as four 64-bit limbs, little-endian, always canonically
//! reduced into `[0, p)`. Every operation states its result as modular
//! arithmetic on the mathematical value of the element.

use vstd::prelude::*;
use vstd::arithmetic::div_mod::lemma_fundamental_div_mod;
use vstd::arithmetic::div_mod::lemma_small_mod;
use vstd::arithmetic::div_mod::lemma_mod_sub_multiples_vanish;
use vstd::arithmetic::div_mod::lemma_mod_add_multiples_vanish;
use vstd::arithmetic::div_mod::lemma_mod_self_0;
use vstd::arithmetic::div_mod::lemma_fundamental_div_mod_converse;
use vstd::arithmetic::div_mod::lemma_add_mod_noop;
use vstd::arithmetic::div_mod::lemma_mod_bound;
use vstd::arithmetic::div_mod::lemma_mul_mod_noop_general;
use vstd::arithmetic::div_mod::lemma_mul_mod_noop_right;
use vstd::arithmetic::div_mod::lemma_div_denominator;
use vstd::arithmetic::div_mod::lemma_div_basics;
use vstd::arithmetic::div_mod::lemma_mod_multiples_vanish;
use vstd::arithmetic::power2::pow2;
use vstd::arithmetic::power2::lemma_pow2_pos;
use vstd::arithmetic::power2::lemma_pow2_adds;
use vstd::arithmetic::power2::lemma2_to64;
use vstd::arithmetic::power::pow;
use vstd::arithmetic::power::lemma_pow0;
use vstd::arithmetic::power::lemma_pow1;
use vstd::arithmetic::power::lemma_pow_adds;
use vstd::arithmetic::power::lemma_pow_multiplies;
use vstd::arithmetic::power::lemma_pow_positive;

verus! {

/// Base of the limb representation: 2^64.
pub open spec fn b64() -> nat {
    0x10000000000000000nat
}

/// 2^128.
pub open spec fn b128() -> nat {
    0x100000000000000000000000000000000nat
}

/// 2^192.
pub open spec fn b192() -> nat {
    0x1000000000000000000000000000000000000000000000000nat
}

/// 2^256.
pub open spec fn b256() -> nat {
    0x10000000000000000000000000000000000000000000000000000000000000000nat
}

/// The field modulus: the order of the alt_bn128 scalar field.
pub open spec fn p() -> nat {
    0x30644e72e131a029b85045b68181585d2833e84879b9709143e1f593f0000001nat
}

/// Limbs of `p`, little-endian.
const P_LIMB_0: u64 = 0x43e1f593f0000001;
const P_LIMB_1: u64 = 0x2833e84879b97091;
const P_LIMB_2: u64 = 0xb85045b68181585d;
const P_LIMB_3: u64 = 0x30644e72e131a029;

/// Low limb of `p - 2`, the inversion exponent; its upper limbs equal those of `p`.
const INV_EXP_LIMB_0: u64 = 0x43e1f593efffffff;

/// Limbs of `2^256 mod p`, the factor that takes a canonical value into the
/// engine's Montgomery encoding.
const MONT_LIMB_0: u64 = 0xac96341c4ffffffb;
const MONT_LIMB_1: u64 = 0x36fc76959f60cd29;
const MONT_LIMB_2: u64 = 0x666ea36f7879462e;
const MONT_LIMB_3: u64 = 0x0e0a77c19a07df2f;

/// An element of F_p in canonical form.
#[derive(Clone, Copy, Debug, PartialEq, Eq, Structural)]
pub struct FieldT {
    d0: u64,
    d1: u64,
    d2: u64,
    d3: u64,
}

/// Addition in F_p on canonical representatives.
pub open spec fn fadd(x: nat, y: nat) -> nat {
    (x + y) % p()
}

/// Negation in F_p on canonical representatives.
pub open spec fn fneg(x: nat) -> nat {
    (((p() - (x % p())) % (p() as int)) as nat)
}

/// Subtraction in F_p on canonical representatives.
pub open spec fn fsub(x: nat, y: nat) -> nat {
    fadd(x, fneg(y))
}

/// Multiplication in F_p on canonical representatives.
pub open spec fn fmul(x: nat, y: nat) -> nat {
    (x * y) % p()
}

/// The multiplicative inverse of a nonzero canonical representative, in the
/// form Fermat's little theorem gives it: `x^(p-2) mod p`.
pub open spec fn finv(x: nat) -> nat {
    (pow(x as int, (p() - 2) as nat) % (p() as int)) as nat
}

/// The residue the proving engine keeps internally for a value: its Montgomery
/// form `x * 2^256 mod p`.
pub open spec fn mont_value(x: nat) -> nat {
    (x * b256()) % p()
}

/// Byte `j` of the little-endian encoding of `v`.
pub open spec fn byte_at(v: nat, j: int) -> u8 {
    (((v / pow2((8 * j) as nat)) % 256) as u8)
}

impl FieldT {
    /// The mathematical value of the element.
    pub closed spec fn value(self) -> nat {
        (self.d0 as nat) + (self.d1 as nat) * b64() + (self.d2 as nat) * b128() + (self.d3
            as nat) * b192()
    }

    /// Canonical form: the value lies in `[0, p)`.
    pub open spec fn wf(self) -> bool {
        self.value() < p()
    }

    /// The additive identity.
    pub fn zero() -> (r: FieldT)
        ensures
            r.wf(),
            r.value() == 0,
    {
        FieldT { d0: 0, d1: 0, d2: 0, d3: 0 }
    }

    /// The multiplicative identity.
    pub fn one() -> (r: FieldT)
        ensures
            r.wf(),
            r.value() == 1,
    {
        FieldT { d0: 1, d1: 0, d2: 0, d3: 0 }
    }
}

/// The modulus as raw limbs; not a canonical element (its value is `p` itself).
fn p_limbs() -> (r: FieldT)
    ensures
        r.value() == p(),
{
    FieldT { d0: P_LIMB_0, d1: P_LIMB_1, d2: P_LIMB_2, d3: P_LIMB_3 }
}

/// 256-bit addition of the limb vectors; the sum must fit in 256 bits.
fn limbs_add(a: &FieldT, b: &FieldT) -> (r: FieldT)
    requires
        a.value() + b.value() < b256(),
    ensures
        r.value() == a.value() + b.value(),
{
    let t0: u128 = a.d0 as u128 + b.d0 as u128;
    let r0: u64 = (t0 % 0x10000000000000000) as u64;
    let c0: u64 = (t0 / 0x10000000000000000) as u64;
    let t1: u128 = a.d1 as u128 + b.d1 as u128 + c0 as u128;
    let r1: u64 = (t1 % 0x10000000000000000) as u64;
    let c1: u64 = (t1 / 0x10000000000000000) as u64;
    let t2: u128 = a.d2 as u128 + b.d2 as u128 + c1 as u128;
    let r2: u64 = (t2 % 0x10000000000000000) as u64;
    let c2: u64 = (t2 / 0x10000000000000000) as u64;
    let t3: u128 = a.d3 as u128 + b.d3 as u128 + c2 as u128;
    let r3: u64 = (t3 % 0x10000000000000000) as u64;
    let c3: u64 = (t3 / 0x10000000000000000) as u64;
    let r = FieldT { d0: r0, d1: r1, d2: r2, d3: r3 };
    proof {
        lemma_fundamental_div_mod(t0 as int, 0x10000000000000000);
        lemma_fundamental_div_mod(t1 as int, 0x10000000000000000);
        lemma_fundamental_div_mod(t2 as int, 0x10000000000000000);
        lemma_fundamental_div_mod(t3 as int, 0x10000000000000000);
        assert(a.value() + b.value() == r.value() + (c3 as nat) * b256());
    }
    r
}

/// 256-bit subtraction of the limb vectors; the minuend must dominate.
fn limbs_sub(a: &FieldT, b: &FieldT) -> (r: FieldT)
    requires
        b.value() <= a.value(),
    ensures
        r.value() == a.value() - b.value(),
{
    let t0: u128 = 0x10000000000000000 + a.d0 as u128 - b.d0 as u128;
    let r0: u64 = (t0 % 0x10000000000000000) as u64;
    let w0: u64 = 1 - (t0 / 0x10000000000000000) as u64;
    let t1: u128 = 0x10000000000000000 + a.d1 as u128 - b.d1 as u128 - w0 as u128;
    let r1: u64 = (t1 % 0x10000000000000000) as u64;
    let w1: u64 = 1 - (t1 / 0x10000000000000000) as u64;
    let t2: u128 = 0x10000000000000000 + a.d2 as u128 - b.d2 as u128 - w1 as u128;
    let r2: u64 = (t2 % 0x10000000000000000) as u64;
    let w2: u64 = 1 - (t2 / 0x10000000000000000) as u64;
    let t3: u128 = 0x10000000000000000 + a.d3 as u128 - b.d3 as u128 - w2 as u128;
    let r3: u64 = (t3 % 0x10000000000000000) as u64;
    let w3: u64 = 1 - (t3 / 0x10000000000000000) as u64;
    let r = FieldT { d0: r0, d1: r1, d2: r2, d3: r3 };
    proof {
        lemma_fundamental_div_mod(t0 as int, 0x10000000000000000);
        lemma_fundamental_div_mod(t1 as int, 0x10000000000000000);
        lemma_fundamental_div_mod(t2 as int, 0x10000000000000000);
        lemma_fundamental_div_mod(t3 as int, 0x10000000000000000);
        assert(a.value() - b.value() == r.value() - (w3 as int) * b256());
    }
    r
}

/// One limb of double-and-add: folds `shift * limb` into the accumulator and
/// advances the shift register by 2^64, everything mod `p`. The ghost values
/// `acc0` and `sh0` are the unreduced numbers whose residues the two registers
/// hold.
fn mul_acc_limb(acc: &FieldT, shift: &FieldT, limb: u64, Ghost(acc0): Ghost<nat>, Ghost(
    sh0,
): Ghost<nat>) -> (r: (FieldT, FieldT))
    requires
        acc.value() == acc0 % p(),
        shift.value() == sh0 % p(),
    ensures
        r.0.wf(),
        r.1.wf(),
        r.0.value() == (acc0 + sh0 * (limb as nat)) % p(),
        r.1.value() == (sh0 * b64()) % p(),
{
    let mut r = *acc;
    let mut s = *shift;
    let mut cur = limb;
    let mut k: u64 = 0;
    proof {
        lemma2_to64();
        lemma_mod_bound(acc0 as int, p() as int);
        lemma_mod_bound(sh0 as int, p() as int);
        assert(limb as nat % pow2(0) == 0) by {
            lemma_small_mod(0nat, p());
        }
    }
    while k < 64
        invariant
            r.wf(),
            s.wf(),
            k <= 64,
            cur as nat == (limb as nat) / pow2(k as nat),
            r.value() == (acc0 + sh0 * ((limb as nat) % pow2(k as nat))) % p(),
            s.value() == (sh0 * pow2(k as nat)) % p(),
        decreases 64 - k,
    {
        let ghost c = (limb as nat) % pow2(k as nat);
        let ghost pk = pow2(k as nat);
        let ghost curg = cur as nat;
        let bit = cur % 2;
        proof {
            lemma_pow2_pos(k as nat);
            lemma_fundamental_div_mod(limb as int, pk as int);
            lemma_fundamental_div_mod(cur as int, 2);
            lemma_pow2_adds(k as nat, 1);
            lemma2_to64();
            assert(pow2(k as nat + 1) == pk * 2);
            assert(limb as nat == (curg / 2) * (pk * 2) + ((bit as nat) * pk + c)) by {
                assert(limb as int == curg * pk + c);
                assert(curg == 2 * (curg / 2) + bit as nat);
                assert((2 * (curg / 2) + bit as nat) * pk == (curg / 2) * (pk * 2) + (bit as nat)
                    * pk) by (nonlinear_arith);
            }
            assert(c < pk);
            assert(bit as nat * pk + c < pk * 2) by (nonlinear_arith)
                requires
                    bit <= 1,
                    c < pk,
            ;
            lemma_fundamental_div_mod_converse(
                limb as int,
                (pk * 2) as int,
                (curg / 2) as int,
                (bit as nat * pk + c) as int,
            );
            // so: limb % pow2(k + 1) == bit * pk + c, and limb / pow2(k + 1) == cur / 2
        }
        if bit == 1 {
            r = r.add(&s);
            proof {
                assert(bit as nat * pk + c == pk + c) by (nonlinear_arith)
                    requires
                        bit == 1,
                ;
                lemma_add_mod_noop(
                    (acc0 + sh0 * c) as int,
                    (sh0 * pk) as int,
                    p() as int,
                );
                assert(sh0 * c + sh0 * pk == sh0 * (c + pk)) by (nonlinear_arith);
            }
        } else {
            proof {
                assert(bit == 0);
                assert(bit as nat * pk + c == c) by (nonlinear_arith)
                    requires
                        bit == 0,
                ;
            }
        }
        s = s.add(&s);
        cur = cur / 2;
        k = k + 1;
        proof {
            lemma_add_mod_noop((sh0 * pk) as int, (sh0 * pk) as int, p() as int);
            assert(sh0 * pk + sh0 * pk == sh0 * (pk * 2)) by (nonlinear_arith);
        }
    }
    proof {
        lemma2_to64();
        assert(pow2(64) == b64());
        lemma_small_mod(limb as nat, pow2(64));
    }
    (r, s)
}

/// One limb of square-and-multiply: folds `base ^ limb` into the accumulator
/// and advances the base register to its 2^64-th power, everything mod `p`.
/// The ghost values `acc0` and `bse` are the unreduced numbers whose residues
/// the two registers hold.
fn pow_acc_limb(acc: &FieldT, base: &FieldT, limb: u64, Ghost(acc0): Ghost<int>, Ghost(
    bse,
): Ghost<int>) -> (r: (FieldT, FieldT))
    requires
        acc0 >= 0,
        bse >= 1,
        acc.value() == acc0 % (p() as int),
        base.value() == bse % (p() as int),
    ensures
        r.0.wf(),
        r.1.wf(),
        r.0.value() == (acc0 * pow(bse, limb as nat)) % (p() as int),
        r.1.value() == pow(bse, b64()) % (p() as int),
{
    let mut r = *acc;
    let mut s = *base;
    let mut cur = limb;
    let mut k: u64 = 0;
    proof {
        lemma2_to64();
        lemma_mod_bound(acc0, p() as int);
        lemma_mod_bound(bse, p() as int);
        lemma_pow0(bse);
        lemma_pow1(bse);
    }
    while k < 64
        invariant
            acc0 >= 0,
            bse >= 1,
            r.wf(),
            s.wf(),
            k <= 64,
            cur as nat == (limb as nat) / pow2(k as nat),
            r.value() == (acc0 * pow(bse, (limb as nat) % pow2(k as nat))) % (p() as int),
            s.value() == pow(bse, pow2(k as nat)) % (p() as int),
        decreases 64 - k,
    {
        let ghost c = (limb as nat) % pow2(k as nat);
        let ghost pk = pow2(k as nat);
        let ghost curg = cur as nat;
        let bit = cur % 2;
        proof {
            lemma_pow2_pos(k as nat);
            lemma_fundamental_div_mod(limb as int, pk as int);
            lemma_fundamental_div_mod(cur as int, 2);
            lemma_pow2_adds(k as nat, 1);
            lemma2_to64();
            assert(pow2(k as nat + 1) == pk * 2);
            assert(limb as nat == (curg / 2) * (pk * 2) + ((bit as nat) * pk + c)) by {
                assert(limb as int == curg * pk + c);
                assert(curg == 2 * (curg / 2) + bit as nat);
                assert((2 * (curg / 2) + bit as nat) * pk == (curg / 2) * (pk * 2) + (bit as nat)
                    * pk) by (nonlinear_arith);
            }
            assert(c < pk);
            assert(bit as nat * pk + c < pk * 2) by (nonlinear_arith)
                requires
                    bit <= 1,
                    c < pk,
            ;
            lemma_fundamental_div_mod_converse(
                limb as int,
                (pk * 2) as int,
                (curg / 2) as int,
                (bit as nat * pk + c) as int,
            );
            lemma_pow_positive(bse, c);
            lemma_pow_positive(bse, pk);
        }
        if bit == 1 {
            r = r.mul(&s);
            proof {
                assert(bit as nat * pk + c == pk + c) by (nonlinear_arith)
                    requires
                        bit == 1,
                ;
                lemma_mul_mod_noop_general(acc0 * pow(bse, c), pow(bse, pk), p() as int);
                lemma_pow_adds(bse, c, pk);
                assert((acc0 * pow(bse, c)) * pow(bse, pk) == acc0 * (pow(bse, c) * pow(bse, pk)))
                    by (nonlinear_arith);
            }
        } else {
            proof {
                assert(bit == 0);
                assert(bit as nat * pk + c == c) by (nonlinear_arith)
                    requires
                        bit == 0,
                ;
            }
        }
        s = s.mul(&s);
        cur = cur / 2;
        k = k + 1;
        proof {
            lemma_mul_mod_noop_general(pow(bse, pk), pow(bse, pk), p() as int);
            lemma_pow_adds(bse, pk, pk);
        }
    }
    proof {
        lemma2_to64();
        assert(pow2(64) == b64());
        lemma_small_mod(limb as nat, pow2(64));
    }
    (r, s)
}

/// Whether the limb vector reaches the modulus.
fn limbs_geq_p(a: &FieldT) -> (r: bool)
    ensures
        r == (a.value() >= p()),
{
    if a.d3 != P_LIMB_3 {
        a.d3 > P_LIMB_3
    } else if a.d2 != P_LIMB_2 {
        a.d2 > P_LIMB_2
    } else if a.d1 != P_LIMB_1 {
        a.d1 > P_LIMB_1
    } else {
        a.d0 >= P_LIMB_0
    }
}

impl FieldT {
    /// Field addition.
    pub fn add(&self, other: &FieldT) -> (r: FieldT)
        requires
            self.wf(),
            other.wf(),
        ensures
            r.wf(),
            r.value() == fadd(self.value(), other.value()),
    {
        let s = limbs_add(self, other);
        if limbs_geq_p(&s) {
            let r = limbs_sub(&s, &p_limbs());
            proof {
                lemma_mod_sub_multiples_vanish(s.value() as int, p() as int);
                lemma_small_mod(r.value(), p());
            }
            r
        } else {
            proof {
                lemma_small_mod(s.value(), p());
            }
            s
        }
    }

    /// Field negation.
    pub fn neg(&self) -> (r: FieldT)
        requires
            self.wf(),
        ensures
            r.wf(),
            r.value() == fneg(self.value()),
    {
        proof {
            lemma_small_mod(self.value(), p());
        }
        if self.d0 == 0 && self.d1 == 0 && self.d2 == 0 && self.d3 == 0 {
            proof {
                lemma_mod_self_0(p() as int);
            }
            FieldT::zero()
        } else {
            let r = limbs_sub(&p_limbs(), self);
            proof {
                lemma_small_mod(r.value(), p());
            }
            r
        }
    }

    /// Field subtraction.
    pub fn sub(&self, other: &FieldT) -> (r: FieldT)
        requires
            self.wf(),
            other.wf(),
        ensures
            r.wf(),
            r.value() == fsub(self.value(), other.value()),
    {
        self.add(&other.neg())
    }

    /// The element standing for an unsigned machine integer.
    pub fn from_u64(v: u64) -> (r: FieldT)
        ensures
            r.wf(),
            r.value() == v,
    {
        FieldT { d0: v, d1: 0, d2: 0, d3: 0 }
    }

    /// The element standing for a signed machine integer: its residue mod `p`,
    /// so a negative `v` maps to `p - |v|`.
    pub fn from_i64(v: i64) -> (r: FieldT)
        ensures
            r.wf(),
            r.value() as int == (v as int) % (p() as int),
    {
        if v >= 0 {
            let r = FieldT::from_u64(v as u64);
            proof {
                lemma_small_mod(r.value(), p());
            }
            r
        } else {
            let m: u64 = (-(v as i128)) as u64;
            let r = FieldT::from_u64(m).neg();
            proof {
                lemma_small_mod(m as nat, p());
                lemma_mod_add_multiples_vanish(v as int, p() as int);
                lemma_small_mod((p() - m) as nat, p());
            }
            r
        }
    }

    /// Field multiplication, by 256 steps of double-and-add over the bits of
    /// the right factor.
    pub fn mul(&self, other: &FieldT) -> (r: FieldT)
        requires
            self.wf(),
            other.wf(),
        ensures
            r.wf(),
            r.value() == fmul(self.value(), other.value()),
    {
        let ghost a = self.value();
        let z = FieldT::zero();
        proof {
            lemma_small_mod(0nat, p());
            lemma_small_mod(a, p());
        }
        let (r1, s1) = mul_acc_limb(&z, self, other.d0, Ghost(0nat), Ghost(a));
        let (r2, s2) = mul_acc_limb(&r1, &s1, other.d1, Ghost((a * other.d0) as nat), Ghost((a * b64()) as nat));
        let ghost acc2 = (a * other.d0 + (a * b64()) * other.d1) as nat;
        let ghost sh2 = ((a * b64()) * b64()) as nat;
        let (r3, s3) = mul_acc_limb(&r2, &s2, other.d2, Ghost(acc2), Ghost(sh2));
        let ghost acc3 = (acc2 + sh2 * other.d2) as nat;
        let ghost sh3 = (sh2 * b64()) as nat;
        let (r4, _s4) = mul_acc_limb(&r3, &s3, other.d3, Ghost(acc3), Ghost(sh3));
        proof {
            assert(a * other.d0 + (a * b64()) * other.d1 + ((a * b64()) * b64()) * other.d2 + (((a
                * b64()) * b64()) * b64()) * other.d3 == a * ((other.d0 as nat) + (other.d1 as nat)
                * b64() + (other.d2 as nat) * b128() + (other.d3 as nat) * b192()))
                by (nonlinear_arith);
        }
        r4
    }

    /// The multiplicative inverse of a nonzero element, computed as the power
    /// `self^(p-2)`, which Fermat's little theorem makes the inverse.
    pub fn inverse(&self) -> (r: FieldT)
        requires
            self.wf(),
            self.value() != 0,
        ensures
            r.wf(),
            r.value() == finv(self.value()),
    {
        let ghost av = self.value() as int;
        let ghost e0 = INV_EXP_LIMB_0 as nat;
        let ghost e1 = (b64() * (P_LIMB_1 as nat)) as nat;
        let ghost e2 = ((b64() * b64()) * (P_LIMB_2 as nat)) as nat;
        let ghost e3 = ((b64() * b64() * b64()) * (P_LIMB_3 as nat)) as nat;
        let o = FieldT::one();
        proof {
            lemma_small_mod(1nat, p());
            lemma_small_mod(self.value(), p());
            lemma_pow_positive(av, b64());
            lemma_pow_positive(av, (b64() * b64()) as nat);
            lemma_pow_positive(av, (b64() * b64() * b64()) as nat);
            lemma_pow_positive(av, e0);
            lemma_pow_positive(av, (e0 + e1) as nat);
            lemma_pow_positive(av, (e0 + e1 + e2) as nat);
        }
        let (r1, s1) = pow_acc_limb(&o, self, INV_EXP_LIMB_0, Ghost(1int), Ghost(av));
        proof {
            assert(1int * pow(av, e0) == pow(av, e0)) by (nonlinear_arith);
            lemma_pow_multiplies(av, b64(), b64());
            lemma_pow_multiplies(av, b64(), P_LIMB_1 as nat);
            lemma_pow_adds(av, e0, e1);
        }
        let (r2, s2) = pow_acc_limb(&r1, &s1, P_LIMB_1, Ghost(pow(av, e0)), Ghost(pow(av, b64())));
        proof {
            // pow(av, e0) * pow(pow(av, b64), limb1) == pow(av, e0 + e1)
            lemma_pow_multiplies(av, (b64() * b64()) as nat, P_LIMB_2 as nat);
            lemma_pow_multiplies(av, (b64() * b64()) as nat, b64());
            lemma_pow_adds(av, (e0 + e1) as nat, e2);
        }
        let (r3, s3) = pow_acc_limb(
            &r2,
            &s2,
            P_LIMB_2,
            Ghost(pow(av, (e0 + e1) as nat)),
            Ghost(pow(av, (b64() * b64()) as nat)),
        );
        proof {
            lemma_pow_multiplies(av, (b64() * b64() * b64()) as nat, P_LIMB_3 as nat);
            lemma_pow_adds(av, (e0 + e1 + e2) as nat, e3);
        }
        let (r4, _s4) = pow_acc_limb(
            &r3,
            &s3,
            P_LIMB_3,
            Ghost(pow(av, (e0 + e1 + e2) as nat)),
            Ghost(pow(av, (b64() * b64() * b64()) as nat)),
        );
        proof {
            assert(e0 + e1 + e2 + e3 == (p() - 2) as nat);
        }
        r4
    }

    /// The canonical representative truncated to the low 64 bits.
    pub fn to_u64(&self) -> (r: u64)
        ensures
            r as nat == self.value() % b64(),
    {
        proof {
            lemma_fundamental_div_mod_converse(
                self.value() as int,
                b64() as int,
                (self.d1 as nat + self.d2 as nat * b64() + self.d3 as nat * b128()) as int,
                self.d0 as int,
            );
        }
        self.d0
    }
}

/// Each limb is a base-2^64 digit of the value.
proof fn lemma_limb_decomposition(x: FieldT)
    ensures
        x.d0 as nat == x.value() % pow2(64),
        x.d1 as nat == (x.value() / pow2(64)) % pow2(64),
        x.d2 as nat == (x.value() / pow2(128)) % pow2(64),
        x.d3 as nat == (x.value() / pow2(192)) % pow2(64),
{
    lemma2_to64();
    lemma_pow2_adds(64, 64);
    lemma_pow2_adds(128, 64);
    assert(pow2(64) == b64());
    assert(pow2(128) == b128());
    assert(pow2(192) == b192());
    let v = x.value() as int;
    let q0 = x.d1 as int + (x.d2 as nat) * b64() + (x.d3 as nat) * b128();
    let q1 = x.d2 as int + (x.d3 as nat) * b64();
    lemma_fundamental_div_mod_converse(v, b64() as int, q0, x.d0 as int);
    lemma_fundamental_div_mod_converse(q0, b64() as int, q1, x.d1 as int);
    lemma_fundamental_div_mod_converse(q1, b64() as int, x.d3 as int, x.d2 as int);
    lemma_div_denominator(v, b64() as int, b64() as int);
    lemma_div_denominator(v, b128() as int, b64() as int);
    lemma_small_mod(x.d3 as nat, pow2(64));
}

/// Two elements with the same value are the same limbs.
pub proof fn lemma_value_injective(x: FieldT, y: FieldT)
    requires
        x.value() == y.value(),
    ensures
        x == y,
{
    lemma_limb_decomposition(x);
    lemma_limb_decomposition(y);
}

/// Law: negation is an involution on canonical values: `-(-a) == a`.
pub proof fn lemma_neg_involution(a: FieldT)
    requires
        a.wf(),
    ensures
        fneg(fneg(a.value())) == a.value(),
{
    let x = a.value();
    lemma_small_mod(x, p());
    lemma_mod_self_0(p() as int);
    lemma_small_mod(0nat, p());
    if x != 0 {
        lemma_small_mod((p() - x) as nat, p());
    }
}

/// Law: an element plus its negation is the additive identity.
pub proof fn lemma_add_neg(a: FieldT)
    requires
        a.wf(),
    ensures
        fadd(a.value(), fneg(a.value())) == 0,
{
    let x = a.value();
    lemma_small_mod(x, p());
    lemma_mod_self_0(p() as int);
    lemma_small_mod(0nat, p());
    if x != 0 {
        lemma_small_mod((p() - x) as nat, p());
    }
}

/// Law: an integer goes into the field and comes back out unchanged.
/// `from_u64` builds the element of value `v`, and `to_u64` returns
/// `value % 2^64`, so the pair is the identity on every `u64`. A canonical
/// value that needs more than 64 bits truncates instead: `2^64` itself, an
/// integer below `p`, comes back as zero.
pub proof fn lemma_int_round_trip(a: FieldT, v: u64)
    requires
        a.value() == v as nat,
    ensures
        a.value() % b64() == v as nat,
{
    lemma_small_mod(v as nat, b64());
}

/// The Montgomery factor `2^256 mod p` as a canonical element.
fn mont_factor() -> (r: FieldT)
    ensures
        r.wf(),
        r.value() == b256() % p(),
{
    let r = FieldT { d0: MONT_LIMB_0, d1: MONT_LIMB_1, d2: MONT_LIMB_2, d3: MONT_LIMB_3 };
    proof {
        lemma_fundamental_div_mod_converse(b256() as int, p() as int, 5int, r.value() as int);
    }
    r
}

/// A byte of a limb is the matching byte of the whole value.
proof fn lemma_limb_byte(v: nat, i: nat, k: nat)
    requires
        i < 4,
        k < 8,
    ensures
        (((v / pow2((64 * i) as nat)) % pow2(64)) / pow2((8 * k) as nat)) % 256 == (v / pow2((64 * i
            + 8 * k) as nat)) % 256,
{
    lemma2_to64();
    lemma_pow2_pos((64 * i) as nat);
    lemma_pow2_pos((8 * k) as nat);
    lemma_pow2_pos((64 - 8 * k) as nat);
    lemma_pow2_pos((56 - 8 * k) as nat);
    lemma_pow2_pos(64);
    let y = v / pow2((64 * i) as nat);
    let d = y % pow2(64);
    let a = y / pow2(64);
    lemma_fundamental_div_mod(y as int, pow2(64) as int);
    lemma_fundamental_div_mod(d as int, pow2((8 * k) as nat) as int);
    lemma_pow2_adds((64 - 8 * k) as nat, (8 * k) as nat);
    lemma_pow2_adds(8, (56 - 8 * k) as nat);
    let q = (a * pow2((64 - 8 * k) as nat) + d / pow2((8 * k) as nat)) as int;
    assert(q >= 0 && y as int == q * pow2((8 * k) as nat) + (d % pow2((8 * k) as nat)))
        by (nonlinear_arith)
        requires
            y as int == pow2(64) * a + d,
            d as int == pow2((8 * k) as nat) * (d / pow2((8 * k) as nat)) + d % pow2(
                (8 * k) as nat,
            ),
            pow2(64) == pow2((64 - 8 * k) as nat) * pow2((8 * k) as nat),
            q == a * pow2((64 - 8 * k) as nat) + d / pow2((8 * k) as nat),
            a >= 0,
            d >= 0,
            pow2((64 - 8 * k) as nat) > 0,
            pow2((8 * k) as nat) > 0,
    ;
    lemma_fundamental_div_mod_converse(
        y as int,
        pow2((8 * k) as nat) as int,
        q,
        (d % pow2((8 * k) as nat)) as int,
    );
    assert((y / pow2((8 * k) as nat)) % 256 == (d / pow2((8 * k) as nat)) % 256) by {
        assert(q == 256 * (a * pow2((56 - 8 * k) as nat)) + d / pow2((8 * k) as nat))
            by (nonlinear_arith)
            requires
                pow2((64 - 8 * k) as nat) == 256 * pow2((56 - 8 * k) as nat),
                q == a * pow2((64 - 8 * k) as nat) + d / pow2((8 * k) as nat),
        ;
        lemma_mod_multiples_vanish(
            (a * pow2((56 - 8 * k) as nat)) as int,
            (d / pow2((8 * k) as nat)) as int,
            256,
        );
    }
    lemma_div_denominator(v as int, pow2((64 * i) as nat) as int, pow2((8 * k) as nat) as int);
    lemma_pow2_adds((64 * i) as nat, (8 * k) as nat);
}

/// Compares eight bytes of the encoding, starting at byte offset `8 * i`,
/// against the matching window of `bytes`. The ghost `v` is the whole encoded
/// value, of which `limb` is digit `i` in base 2^64.
fn limb_bytes_match(limb: u64, bytes: &[u8; 32], off: usize, Ghost(v): Ghost<nat>, Ghost(
    i,
): Ghost<nat>) -> (r: bool)
    requires
        i < 4,
        off == 8 * i,
        limb as nat == (v / pow2((64 * i) as nat)) % pow2(64),
    ensures
        r == (forall|k: int| 0 <= k < 8 ==> #[trigger] bytes@[off + k] == byte_at(v, off + k)),
{
    let mut ok = true;
    let mut cur = limb;
    let mut k: usize = 0;
    proof {
        lemma2_to64();
        lemma_div_basics(limb as int);
    }
    while k < 8
        invariant
            i < 4,
            off == 8 * i,
            k <= 8,
            limb as nat == (v / pow2((64 * i) as nat)) % pow2(64),
            cur as nat == (limb as nat) / pow2((8 * k) as nat),
            ok == (forall|k2: int| 0 <= k2 < k ==> #[trigger] bytes@[off + k2] == byte_at(v, off + k2)),
        decreases 8 - k,
    {
        let b = (cur % 256) as u8;
        proof {
            lemma_limb_byte(v, i, k as nat);
            assert(8 * (off + k) == 64 * i + 8 * k);
            assert(b == byte_at(v, off + k as int));
            lemma2_to64();
            lemma_pow2_pos((8 * k) as nat);
            lemma_pow2_adds((8 * k) as nat, 8);
            lemma_div_denominator(limb as int, pow2((8 * k) as nat) as int, 256);
        }
        let hit = b == bytes[off + k];
        let ghost old_ok = ok;
        ok = ok && hit;
        cur = cur / 256;
        k = k + 1;
        proof {
            if old_ok && hit {
                assert forall|k2: int| 0 <= k2 < k implies #[trigger] bytes@[off + k2] == byte_at(
                    v,
                    off + k2,
                ) by {
                    if k2 < k - 1 {
                    } else {
                        assert(k2 == k - 1);
                    }
                }
            } else if !old_ok {
                let w = choose|k2: int| 0 <= k2 < k - 1 && #[trigger] bytes@[off + k2] != byte_at(v, off + k2);
                assert(bytes@[off + w] != byte_at(v, off + w));
            } else {
                assert(bytes@[off + (k - 1)] != byte_at(v, off + (k - 1)));
            }
        }
    }
    ok
}


/// The four eight-byte windows together cover the whole 32-byte encoding.
proof fn lemma_windows_combine(bytes: Seq<u8>, v: nat, ok0: bool, ok1: bool, ok2: bool, ok3: bool)
    requires
        bytes.len() == 32,
        ok0 == (forall|k: int| 0 <= k < 8 ==> #[trigger] bytes[0 + k] == byte_at(v, 0 + k)),
        ok1 == (forall|k: int| 0 <= k < 8 ==> #[trigger] bytes[8 + k] == byte_at(v, 8 + k)),
        ok2 == (forall|k: int| 0 <= k < 8 ==> #[trigger] bytes[16 + k] == byte_at(v, 16 + k)),
        ok3 == (forall|k: int| 0 <= k < 8 ==> #[trigger] bytes[24 + k] == byte_at(v, 24 + k)),
    ensures
        (ok0 && ok1 && ok2 && ok3) == (forall|j: int|
            0 <= j < 32 ==> #[trigger] bytes[j] == byte_at(v, j)),
{
    if ok0 && ok1 && ok2 && ok3 {
        assert forall|j: int| 0 <= j < 32 implies #[trigger] bytes[j] == byte_at(v, j) by {
            if j < 8 {
                assert(bytes[0 + j] == byte_at(v, 0 + j));
            } else if j < 16 {
                assert(bytes[8 + (j - 8)] == byte_at(v, 8 + (j - 8)));
            } else if j < 24 {
                assert(bytes[16 + (j - 16)] == byte_at(v, 16 + (j - 16)));
            } else {
                assert(bytes[24 + (j - 24)] == byte_at(v, 24 + (j - 24)));
            }
        }
    } else {
        if forall|j: int| 0 <= j < 32 ==> #[trigger] bytes[j] == byte_at(v, j) {
            assert forall|k: int| 0 <= k < 8 implies #[trigger] bytes[0 + k] == byte_at(
                v,
                0 + k,
            ) by {
                assert(bytes[0 + k] == byte_at(v, 0 + k));
            }
            assert forall|k: int| 0 <= k < 8 implies #[trigger] bytes[8 + k] == byte_at(
                v,
                8 + k,
            ) by {
                assert(bytes[8 + k] == byte_at(v, 8 + k));
            }
            assert forall|k: int| 0 <= k < 8 implies #[trigger] bytes[16 + k] == byte_at(
                v,
                16 + k,
            ) by {
                assert(bytes[16 + k] == byte_at(v, 16 + k));
            }
            assert forall|k: int| 0 <= k < 8 implies #[trigger] bytes[24 + k] == byte_at(
                v,
                24 + k,
            ) by {
                assert(bytes[24 + k] == byte_at(v, 24 + k));
            }
            assert(false);
        }
    }
}

impl FieldT {
    /// Exact comparison of the engine's canonical byte encoding of this
    /// element (the little-endian Montgomery residue) against a fixed byte
    /// sequence; a diagnostic for tests.
    pub fn debug_equal(&self, bytes: [u8; 32]) -> (r: bool)
        requires
            self.wf(),
        ensures
            r == (forall|j: int|
                0 <= j < 32 ==> bytes@[j] == byte_at(mont_value(self.value()), j)),
    {
        let m = self.mul(&mont_factor());
        let ghost v = mont_value(self.value());
        proof {
            lemma_mul_mod_noop_right(self.value() as int, b256() as int, p() as int);
            assert(m.value() == v);
            lemma_limb_decomposition(m);
            lemma2_to64();
            lemma_div_basics(v as int);
        }
        let ok0 = limb_bytes_match(m.d0, &bytes, 0, Ghost(v), Ghost(0nat));
        let ok1 = limb_bytes_match(m.d1, &bytes, 8, Ghost(v), Ghost(1nat));
        let ok2 = limb_bytes_match(m.d2, &bytes, 16, Ghost(v), Ghost(2nat));
        let ok3 = limb_bytes_match(m.d3, &bytes, 24, Ghost(v), Ghost(3nat));
        let r = ok0 && ok1 && ok2 && ok3;
        proof {
            lemma_windows_combine(bytes@, v, ok0, ok1, ok2, ok3);
        }
        r
    }

    /// The four little-endian 64-bit limbs of the canonical representative,
    /// for callers that hand the element onward.
    pub fn limbs(&self) -> (r: (u64, u64, u64, u64))
        ensures
            (r.0 as nat) + (r.1 as nat) * b64() + (r.2 as nat) * b128() + (r.3 as nat) * b192()
                == self.value(),
    {
        (self.d0, self.d1, self.d2, self.d3)
    }
}

} // verus!
