//! Greatest-common-divisor computation over a column of `u64` values.
//!
//! Zero values act as an "absent" sentinel: they neither contribute to nor
//! invalidate the divisor. The scan short-circuits as soon as the running
//! divisor reaches 1, and uses a precomputed fast divider to test
//! divisibility without a hardware division per value.

use vstd::arithmetic::div_mod::lemma_fundamental_div_mod;
use vstd::prelude::*;

verus! {

/// `d` divides `n` exactly.
pub open spec fn divides(d: nat, n: nat) -> bool {
    exists|k: nat| n == #[trigger] (d * k)
}

/// Euclid's greatest common divisor, with `gcd_nat(a, 0) == a`.
pub open spec fn gcd_nat(a: nat, b: nat) -> nat
    decreases b,
{
    if b == 0 {
        a
    } else {
        gcd_nat(b, a % b)
    }
}

/// Greatest common divisor of all values of a column, folded left to right,
/// with 0 as the identity (so an empty or all-zero column yields 0).
pub open spec fn seq_gcd(s: Seq<u64>) -> nat
    decreases s.len(),
{
    if s.len() == 0 {
        0
    } else {
        gcd_nat(s.last() as nat, seq_gcd(s.drop_last()))
    }
}

proof fn lemma_divides_trans(a: nat, b: nat, c: nat)
    requires
        divides(a, b),
        divides(b, c),
    ensures
        divides(a, c),
{
    let k1 = choose|k: nat| b == #[trigger] (a * k);
    let k2 = choose|k: nat| c == #[trigger] (b * k);
    assert(c == a * (k1 * k2)) by (nonlinear_arith)
        requires b == a * k1, c == b * k2;
}

proof fn lemma_divides_mod(d: nat, n: nat)
    requires
        d >= 1,
        divides(d, n),
    ensures
        n % d == 0,
{
    let k = choose|k: nat| n == #[trigger] (d * k);
    assert((d * k) % d == 0) by (nonlinear_arith)
        requires d >= 1;
}

proof fn lemma_mod_divides(d: nat, n: nat)
    requires
        d >= 1,
        n % d == 0,
    ensures
        divides(d, n),
{
    lemma_fundamental_div_mod(n as int, d as int);
    assert(n == d * (n / d));
    assert(divides(d, n)) by {
        assert(n == d * ((n / d) as nat));
    }
}

proof fn lemma_gcd_pos(a: nat, b: nat)
    requires
        a > 0 || b > 0,
    ensures
        gcd_nat(a, b) > 0,
    decreases b,
{
    if b > 0 {
        lemma_gcd_pos(b, a % b);
    }
}

/// The gcd divides both of its arguments.
proof fn lemma_gcd_divides(a: nat, b: nat)
    ensures
        divides(gcd_nat(a, b), a),
        divides(gcd_nat(a, b), b),
    decreases b,
{
    if b == 0 {
        assert(a == a * 1);
        assert(a * 1 == gcd_nat(a, b) * 1);
        assert(0 == gcd_nat(a, b) * 0);
    } else {
        lemma_gcd_divides(b, a % b);
        let g = gcd_nat(b, a % b);
        lemma_fundamental_div_mod(a as int, b as int);
        let k1 = choose|k: nat| b == #[trigger] (g * k);
        let k2 = choose|k: nat| (a % b) == #[trigger] (g * k);
        let q = a / b;
        assert(a == b * q + a % b);
        assert(b * q + a % b == g * (k1 * q + k2)) by (nonlinear_arith)
            requires b == g * k1, (a % b) == g * k2, q == a / b;
        assert(a == g * (k1 * q + k2));
    }
}

/// Any common divisor of `a` and `b` divides their gcd.
proof fn lemma_gcd_greatest(a: nat, b: nat, d: nat)
    requires
        divides(d, a),
        divides(d, b),
    ensures
        divides(d, gcd_nat(a, b)),
    decreases b,
{
    if b == 0 {
    } else {
        if d == 0 {
            let k = choose|k: nat| b == #[trigger] (d * k);
            assert(b == 0 * k == 0);
        } else {
            lemma_fundamental_div_mod(a as int, b as int);
            let q = a / b;
            let k1 = choose|k: nat| a == #[trigger] (d * k);
            let k2 = choose|k: nat| b == #[trigger] (d * k);
            assert(a % b == a - b * q);
            assert(k1 >= k2 * q && a % b == d * ((k1 - k2 * q) as nat)) by (nonlinear_arith)
                requires
                    a == d * k1,
                    b == d * k2,
                    d >= 1,
                    a % b == a - b * q,
                    a % b >= 0;
            lemma_gcd_greatest(b, a % b, d);
        }
    }
}

/// A gcd step with a value it already divides changes nothing.
proof fn lemma_gcd_absorb(v: nat, g: nat)
    requires
        g >= 1,
        divides(g, v),
    ensures
        gcd_nat(v, g) == g,
{
    lemma_divides_mod(g, v);
    assert(gcd_nat(v, g) == gcd_nat(g, v % g));
    assert(gcd_nat(g, 0) == g);
}

/// The column gcd is 0 exactly when every value of the column is 0.
pub proof fn lemma_seq_gcd_zero_iff(s: Seq<u64>)
    ensures
        seq_gcd(s) == 0 <==> (forall|i: int| 0 <= i < s.len() ==> s[i] == 0),
    decreases s.len(),
{
    if s.len() > 0 {
        lemma_seq_gcd_zero_iff(s.drop_last());
        if s.last() as nat > 0 || seq_gcd(s.drop_last()) > 0 {
            lemma_gcd_pos(s.last() as nat, seq_gcd(s.drop_last()));
        }
        assert(forall|i: int| 0 <= i < s.len() - 1 ==> s[i] == s.drop_last()[i]);
    }
}

/// Every value of the column is a multiple of the column gcd. Zeros are
/// multiples of anything, so this covers the non-zero values in particular.
pub proof fn lemma_seq_gcd_divides_all(s: Seq<u64>)
    ensures
        forall|i: int| 0 <= i < s.len() ==> divides(seq_gcd(s), s[i] as nat),
    decreases s.len(),
{
    if s.len() > 0 {
        lemma_seq_gcd_divides_all(s.drop_last());
        let g = seq_gcd(s);
        let g0 = seq_gcd(s.drop_last());
        lemma_gcd_divides(s.last() as nat, g0);
        assert forall|i: int| 0 <= i < s.len() implies divides(g, s[i] as nat) by {
            if i == s.len() - 1 {
                assert(s[i] == s.last());
            } else {
                assert(s.drop_last()[i] == s[i]);
                lemma_divides_trans(g, g0, s[i] as nat);
            }
        }
    }
}

/// Maximality: any `d` that divides every non-zero value of the column
/// divides the column gcd, so no larger common divisor exists.
pub proof fn lemma_seq_gcd_greatest(s: Seq<u64>, d: nat)
    requires
        forall|i: int| 0 <= i < s.len() && s[i] != 0 ==> divides(d, s[i] as nat),
    ensures
        divides(d, seq_gcd(s)),
    decreases s.len(),
{
    if s.len() == 0 {
        assert(0 == d * 0);
    } else {
        assert(forall|i: int|
            0 <= i < s.drop_last().len() && s.drop_last()[i] != 0 ==> s.drop_last()[i] == s[i]
                && divides(d, s.drop_last()[i] as nat));
        lemma_seq_gcd_greatest(s.drop_last(), d);
        if s.last() == 0 {
            assert(divides(d, s.last() as nat)) by {
                assert(0 == d * 0);
            }
        }
        lemma_gcd_greatest(s.last() as nat, seq_gcd(s.drop_last()), d);
    }
}

/// Once a prefix of the column has gcd 1, the whole column has gcd 1:
/// the scan may stop early.
proof fn lemma_seq_gcd_prefix_one(s: Seq<u64>, i: int)
    requires
        0 <= i <= s.len(),
        seq_gcd(s.take(i)) == 1,
    ensures
        seq_gcd(s) == 1,
{
    let g = seq_gcd(s);
    lemma_seq_gcd_divides_all(s);
    assert(forall|j: int| 0 <= j < i ==> s.take(i)[j] == s[j]);
    lemma_seq_gcd_greatest(s.take(i), g);
    let k = choose|k: nat| 1nat == #[trigger] (g * k);
    assert(g == 1) by (nonlinear_arith)
        requires 1nat == g * k;
}

/// Unrolling the fold by one element at the end of a prefix.
proof fn lemma_seq_gcd_take_step(s: Seq<u64>, i: int)
    requires
        0 <= i < s.len(),
    ensures
        seq_gcd(s.take(i + 1)) == gcd_nat(s[i] as nat, seq_gcd(s.take(i))),
{
    let t = s.take(i + 1);
    assert(t.last() == s[i]);
    assert(t.drop_last() =~= s.take(i));
}

/// Wrapper around a divisor that turns repeated divisions by it into
/// multiply-and-shift work. Relies on the `fastdivide` crate.
#[verifier::external_type_specification]
#[verifier::external_body]
pub struct ExDividerU64(fastdivide::DividerU64);

pub(crate) struct FastDivider {
    pub(crate) divisor: u64,
    pub(crate) inner: fastdivide::DividerU64,
}

impl FastDivider {
    /// Relies on `fastdivide::DividerU64::divide_by`, which prepares a
    /// divider structure for a non-zero divisor (and panics on zero).
    #[verifier::external_body]
    pub(crate) fn new(divisor: u64) -> (r: Self)
        requires
            divisor >= 1,
        ensures
            r.divisor == divisor,
    {
        FastDivider { divisor, inner: fastdivide::DividerU64::divide_by(divisor) }
    }

    /// Relies on `fastdivide::DividerU64::divide`, which returns the floor
    /// division of its argument by the divisor the structure was built for.
    #[verifier::external_body]
    pub(crate) fn divide(&self, n: u64) -> (r: u64)
        requires
            self.divisor >= 1,
        ensures
            r == n / self.divisor,
    {
        self.inner.divide(n)
    }
}

/// Greatest common divisor of two non-zero numbers by Euclid's algorithm.
///
/// Works correctly regardless of which argument is larger.
pub fn compute_gcd(large: u64, small: u64) -> (g: u64)
    requires
        large >= 1,
        small >= 1,
    ensures
        g >= 1,
        g as nat == gcd_nat(large as nat, small as nat),
{
    let mut l = large;
    let mut s = small;
    loop
        invariant
            l >= 1,
            s >= 1,
            gcd_nat(l as nat, s as nat) == gcd_nat(large as nat, small as nat),
        decreases s,
    {
        let rem: u64 = l % s;
        proof {
            assert(gcd_nat(l as nat, s as nat) == gcd_nat(s as nat, (l % s) as nat));
        }
        if rem == 0 {
            proof {
                assert(gcd_nat(s as nat, 0) == s as nat);
            }
            return s;
        }
        l = s;
        s = rem;
    }
}

/// Greatest common divisor of all non-zero values of the column, or `None`
/// if the column is empty or all zero. Returns `Some(1)` as soon as the
/// running divisor reaches 1 (no further compression is possible).
pub fn find_gcd(numbers: &[u64]) -> (r: Option<u64>)
    ensures
        match r {
            None => seq_gcd(numbers@) == 0,
            Some(g) => g >= 1 && g as nat == seq_gcd(numbers@),
        },
{
    let ghost s = numbers@;
    let mut g: u64 = 0;
    let mut divider_opt: Option<FastDivider> = None;
    let mut i: usize = 0;
    while i < numbers.len()
        invariant
            0 <= i <= s.len(),
            s == numbers@,
            g as nat == seq_gcd(s.take(i as int)),
            g != 1,
            match divider_opt {
                Some(d) => d.divisor == g && g >= 2,
                None => g == 0,
            },
        decreases s.len() - i,
    {
        let v = numbers[i];
        proof {
            lemma_seq_gcd_take_step(s, i as int);
        }
        if v != 0 {
            if g == 0 {
                proof {
                    assert(gcd_nat(v as nat, 0) == v as nat);
                }
                g = v;
                if g == 1 {
                    proof {
                        lemma_seq_gcd_prefix_one(s, i as int + 1);
                    }
                    return Some(1);
                }
                divider_opt = Some(FastDivider::new(g));
            } else {
                let q: u64;
                match &divider_opt {
                    Some(d) => {
                        q = d.divide(v);
                    },
                    None => {
                        assert(false);
                        q = 0;
                    },
                }
                proof {
                    lemma_fundamental_div_mod(v as int, g as int);
                    assert(q * g == g * q);
                    assert(g * q <= v);
                }
                let remainder: u64 = v - q * g;
                assert(remainder == v % g);
                if remainder == 0 {
                    proof {
                        lemma_mod_divides(g as nat, v as nat);
                        lemma_gcd_absorb(v as nat, g as nat);
                    }
                } else {
                    g = compute_gcd(v, g);
                    if g == 1 {
                        proof {
                            lemma_seq_gcd_prefix_one(s, i as int + 1);
                        }
                        return Some(1);
                    }
                    divider_opt = Some(FastDivider::new(g));
                }
            }
        } else {
            proof {
                if g >= 1 {
                    assert(gcd_nat(0, g as nat) == gcd_nat(g as nat, 0nat));
                    assert(gcd_nat(g as nat, 0nat) == g as nat);
                } else {
                    assert(gcd_nat(0, 0) == 0);
                }
            }
        }
        i += 1;
    }
    proof {
        assert(s.take(i as int) =~= s);
    }
    if g == 0 {
        None
    } else {
        Some(g)
    }
}


/// The column gcd is determined by the divisibility facts alone: any `g`
/// that divides every value, and that every common divisor divides, is the
/// column gcd. In particular the gcd does not depend on the order of the
/// values, and zeros (which every number divides) change nothing.
pub proof fn lemma_seq_gcd_unique(s: Seq<u64>, g: nat)
    requires
        forall|i: int| 0 <= i < s.len() ==> divides(g, s[i] as nat),
        forall|d: nat| (forall|i: int| 0 <= i < s.len() ==> divides(d, s[i] as nat)) ==> #[trigger] divides(d, g),
    ensures
        g == seq_gcd(s),
{
    let g0 = seq_gcd(s);
    lemma_seq_gcd_divides_all(s);
    lemma_seq_gcd_greatest(s, g);
    assert(divides(g0, g));
    let k1 = choose|k: nat| g == #[trigger] (g0 * k);
    let k2 = choose|k: nat| g0 == #[trigger] (g * k);
    assert(g == g0) by (nonlinear_arith)
        requires
            g == g0 * k1,
            g0 == g * k2;
}

} // verus!
