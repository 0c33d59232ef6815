//! Decimal rendering of integers.
//!
//! The OAuth timestamp and the nonce embed the current Unix time written
//! in decimal, so the rendering is specified exactly and proved injective:
//! distinct times always give distinct parameter values.

use vstd::prelude::*;

use crate::canonical::push_all;

verus! {

/// The decimal digits of a nonnegative number, most significant first.
pub open spec fn dec_nat(n: nat) -> Seq<u8>
    decreases n,
{
    if n < 10 {
        seq![(48 + n) as u8]
    } else {
        dec_nat(n / 10).push((48 + n % 10) as u8)
    }
}

/// The decimal rendering of an integer: a leading `-` for a negative one.
pub open spec fn dec_int(n: int) -> Seq<u8> {
    if n >= 0 {
        dec_nat(n as nat)
    } else {
        seq![45u8] + dec_nat((-n) as nat)
    }
}

/// Every byte of a nonnegative rendering is an ASCII digit.
pub proof fn lemma_dec_nat_digits(n: nat)
    ensures
        dec_nat(n).len() >= 1,
        forall|i: int| 0 <= i < dec_nat(n).len() ==> 48 <= #[trigger] dec_nat(n)[i] <= 57,
    decreases n,
{
    if n >= 10 {
        lemma_dec_nat_digits(n / 10);
        assert forall|i: int| 0 <= i < dec_nat(n).len() implies 48 <= #[trigger] dec_nat(n)[i]
            <= 57 by {
            if i < dec_nat(n / 10).len() {
                assert(dec_nat(n)[i] == dec_nat(n / 10)[i]);
            } else {
                assert(dec_nat(n)[i] == (48 + n % 10) as u8);
            }
        }
    }
}

/// Distinct nonnegative numbers render to distinct digit strings.
pub proof fn lemma_dec_nat_injective(a: nat, b: nat)
    requires
        dec_nat(a) == dec_nat(b),
    ensures
        a == b,
    decreases a,
{
    if a < 10 && b < 10 {
        assert(dec_nat(a)[0] == (48 + a) as u8);
        assert(dec_nat(b)[0] == (48 + b) as u8);
    } else if a < 10 && b >= 10 {
        lemma_dec_nat_digits(b / 10);
        assert(dec_nat(b).len() >= 2);
        assert(false);
    } else if a >= 10 && b < 10 {
        lemma_dec_nat_digits(a / 10);
        assert(dec_nat(a).len() >= 2);
        assert(false);
    } else {
        let la = dec_nat(a);
        let lb = dec_nat(b);
        assert(la.last() == (48 + a % 10) as u8);
        assert(lb.last() == (48 + b % 10) as u8);
        assert(a % 10 == b % 10);
        assert(la.drop_last() =~= dec_nat(a / 10));
        assert(lb.drop_last() =~= dec_nat(b / 10));
        lemma_dec_nat_injective(a / 10, b / 10);
        assert(a == 10 * (a / 10) + a % 10) by (nonlinear_arith);
        assert(b == 10 * (b / 10) + b % 10) by (nonlinear_arith);
    }
}

/// Distinct integers render to distinct decimal strings.
pub proof fn lemma_dec_int_injective(a: int, b: int)
    requires
        dec_int(a) == dec_int(b),
    ensures
        a == b,
{
    if a >= 0 && b >= 0 {
        lemma_dec_nat_injective(a as nat, b as nat);
    } else if a < 0 && b < 0 {
        assert(dec_int(a).drop_first() =~= dec_nat((-a) as nat));
        assert(dec_int(b).drop_first() =~= dec_nat((-b) as nat));
        lemma_dec_nat_injective((-a) as nat, (-b) as nat);
    } else if a >= 0 && b < 0 {
        lemma_dec_nat_digits(a as nat);
        assert(dec_int(a)[0] >= 48);
        assert(dec_int(b)[0] == 45);
        assert(false);
    } else {
        lemma_dec_nat_digits(b as nat);
        assert(dec_int(b)[0] >= 48);
        assert(dec_int(a)[0] == 45);
        assert(false);
    }
}

/// Render a nonnegative number in decimal.
pub fn u64_to_dec(m: u64) -> (r: Vec<u8>)
    ensures
        r@ == dec_nat(m as nat),
    decreases m,
{
    if m < 10 {
        let mut v: Vec<u8> = Vec::new();
        v.push(48 + (m as u8));
        proof {
            assert(v@ =~= dec_nat(m as nat));
        }
        v
    } else {
        let mut v = u64_to_dec(m / 10);
        v.push(48 + ((m % 10) as u8));
        proof {
            assert(v@ =~= dec_nat(m as nat));
        }
        v
    }
}

/// Render a signed number in decimal, with `-` for a negative one.
pub fn i64_to_dec(t: i64) -> (r: Vec<u8>)
    ensures
        r@ == dec_int(t as int),
{
    if t >= 0 {
        u64_to_dec(t as u64)
    } else {
        // The magnitude of `t`, computed without overflowing at the
        // smallest representable value.
        let m: u64 = ((-(t + 1)) as u64) + 1;
        assert(m as int == -(t as int));
        let mut v: Vec<u8> = Vec::new();
        v.push(45);
        let d = u64_to_dec(m);
        push_all(&mut v, &d);
        proof {
            assert(v@ =~= dec_int(t as int));
        }
        v
    }
}

} // verus!
