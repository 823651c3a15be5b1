//! Greatest common divisors and least common multiples.

use vstd::prelude::*;
use vstd::arithmetic::div_mod::{
    lemma_fundamental_div_mod,
    lemma_mod_is_zero,
    lemma_mod_multiples_basic,
};

verus! {

/// `d` divides both `a` and `b`.
pub open spec fn common_divisor(a: nat, b: nat, d: nat) -> bool {
    d > 0 && a % d == 0 && b % d == 0
}

/// `g` is the greatest common divisor of `a` and `b`: the largest number that
/// divides both, and 0 where both are 0.
pub open spec fn is_gcd(a: nat, b: nat, g: nat) -> bool {
    if a == 0 && b == 0 {
        g == 0
    } else {
        common_divisor(a, b, g) && forall|d: nat| common_divisor(a, b, d) ==> d <= g
    }
}

/// `m` is positive and a multiple of every number of the list.
pub open spec fn common_multiple(numbers: Seq<u64>, m: nat) -> bool {
    m > 0 && forall|i: int| 0 <= i < numbers.len() ==> numbers[i] > 0 && m % (numbers[i] as nat) == 0
}

/// `l` is the least common multiple of the numbers of the list: the smallest
/// positive number that each of them divides, which is 1 for the empty list;
/// and 0 where one of them is 0.
pub open spec fn is_lcm(numbers: Seq<u64>, l: nat) -> bool {
    if numbers.contains(0) {
        l == 0
    } else {
        common_multiple(numbers, l) && forall|m: nat| common_multiple(numbers, m) ==> l <= m
    }
}

/// The greatest common divisor as `num_integer::gcd` computes it for two
/// unsigned 64-bit numbers. The contract states what the crate documents: the
/// result divides both numbers, no larger number does, and it is 0 only
/// where both are 0.
#[verifier::external_body]
fn gcd(a: u64, b: u64) -> (g: u64)
    ensures
        is_gcd(a as nat, b as nat, g as nat),
{
    num_integer::gcd(a, b)
}

/// The result of Euclid's algorithm, by which the proofs below reason.
spec fn euclid(a: nat, b: nat) -> nat
    decreases b,
{
    if b == 0 {
        a
    } else {
        euclid(b, a % b)
    }
}

proof fn lemma_multiple(k: int, d: nat, n: nat)
    requires
        d > 0,
        n == k * d,
    ensures
        n % d == 0,
{
    lemma_mod_multiples_basic(k, d as int);
}

proof fn lemma_quotient(n: nat, d: nat) -> (k: nat)
    requires
        d > 0,
        n % d == 0,
    ensures
        n == k * d,
        k == n / d,
{
    lemma_fundamental_div_mod(n as int, d as int);
    assert(d * (n / d) == (n / d) * d) by (nonlinear_arith);
    n / d
}

/// Euclid's result divides both numbers and is a combination of them.
proof fn lemma_bezout(a: nat, b: nat) -> (xy: (int, int))
    ensures
        xy.0 * a + xy.1 * b == euclid(a, b),
        a > 0 || b > 0 ==> common_divisor(a, b, euclid(a, b)),
    decreases b,
{
    if b == 0 {
        if a > 0 {
            lemma_multiple(1, a, a);
            lemma_multiple(0, a, 0);
        }
        (1, 0)
    } else {
        let r = a % b;
        let q = a / b;
        let (x, y) = lemma_bezout(b, r);
        let e = euclid(b, r);
        lemma_fundamental_div_mod(a as int, b as int);
        assert(a == b * q + r);
        let p = lemma_quotient(b, e);
        let s = lemma_quotient(r, e);
        assert(a == (p * q + s) * e) by (nonlinear_arith)
            requires
                a == b * q + r,
                b == p * e,
                r == s * e,
        ;
        lemma_multiple((p * q + s) as int, e, a);
        assert(y * a + (x - y * q) * b == e) by (nonlinear_arith)
            requires
                x * b + y * r == e,
                a == b * q + r,
        ;
        (y, x - y * q)
    }
}

/// The greatest common divisor is a combination of the two numbers.
proof fn lemma_gcd_combination(a: nat, b: nat, g: nat) -> (xy: (int, int))
    requires
        is_gcd(a, b, g),
    ensures
        xy.0 * a + xy.1 * b == g,
{
    let (x, y) = lemma_bezout(a, b);
    let e = euclid(a, b);
    if a > 0 || b > 0 {
        assert(e <= g);
        let p = lemma_quotient(a, g);
        let q = lemma_quotient(b, g);
        assert(e == (x * p + y * q) * g) by (nonlinear_arith)
            requires
                x * a + y * b == e,
                a == p * g,
                b == q * g,
        ;
        assert(e >= g) by (nonlinear_arith)
            requires
                e == (x * p + y * q) * g,
                e > 0,
                g > 0,
        ;
    }
    (x, y)
}

/// For positive `a` and `b` with greatest common divisor `g`, the number
/// `a / g * b` is a common multiple, and it divides every common multiple.
proof fn lemma_lcm_pair(a: nat, b: nat, g: nat, m: nat)
    requires
        a > 0,
        b > 0,
        is_gcd(a, b, g),
    ensures
        a / g * b > 0,
        (a / g * b) % a == 0,
        (a / g * b) % b == 0,
        m > 0 && m % a == 0 && m % b == 0 ==> m % (a / g * b) == 0 && a / g * b <= m,
{
    let l = a / g * b;
    let p = lemma_quotient(a, g);
    let q = lemma_quotient(b, g);
    assert(p > 0 && q > 0) by (nonlinear_arith)
        requires
            a == p * g,
            b == q * g,
            a > 0,
            b > 0,
    ;
    assert(l > 0) by (nonlinear_arith)
        requires
            l == p * b,
            p > 0,
            b > 0,
    ;
    lemma_multiple(p as int, b, l);
    assert(l == q * a) by (nonlinear_arith)
        requires
            l == p * b,
            a == p * g,
            b == q * g,
    ;
    lemma_multiple(q as int, a, l);
    if m > 0 && m % a == 0 && m % b == 0 {
        let (x, y) = lemma_gcd_combination(a, b, g);
        let s = lemma_quotient(m, a);
        let t = lemma_quotient(m, b);
        let k = x * t + y * s;
        let ab = a * b;
        assert(l * g == ab) by (nonlinear_arith)
            requires
                l == p * b,
                a == p * g,
                ab == a * b,
        ;
        assert((x * t) * ab == (x * a) * m) by (nonlinear_arith)
            requires
                ab == a * b,
                m == t * b,
        ;
        assert((y * s) * ab == (y * b) * m) by (nonlinear_arith)
            requires
                ab == a * b,
                m == s * a,
        ;
        assert(k * ab == (x * t) * ab + (y * s) * ab) by (nonlinear_arith)
            requires
                k == x * t + y * s,
        ;
        assert((x * a) * m + (y * b) * m == g * m) by (nonlinear_arith)
            requires
                x * a + y * b == g,
        ;
        assert(k * (l * g) == (k * l) * g) by (nonlinear_arith);
        assert(m == k * l) by (nonlinear_arith)
            requires
                g * m == (k * l) * g,
                g > 0,
        ;
        lemma_multiple(k, l, m);
        lemma_mod_is_zero(m, l);
    }
}

/// The least common multiple of two numbers, or `None` where it does not fit
/// in 64 bits. With 0 it is 0.
pub fn lcm(a: u64, b: u64) -> (l: Option<u64>)
    ensures
        match l {
            Some(l) => is_lcm(seq![a, b], l as nat),
            None => forall|m: nat| is_lcm(seq![a, b], m) ==> m > u64::MAX,
        },
{
    let ghost pair = seq![a, b];
    if a == 0 || b == 0 {
        assert(pair[0] == a && pair[1] == b);
        return Some(0);
    }
    assert(!pair.contains(0));
    let g = gcd(a, b);
    proof {
        lemma_lcm_pair(a as nat, b as nat, g as nat, 1);
        assert forall|m: nat| common_multiple(pair, m) implies a / g * b <= m by {
            assert(pair[0] == a && pair[1] == b);
            lemma_lcm_pair(a as nat, b as nat, g as nat, m);
        }
    }
    let l = (a / g).checked_mul(b);
    proof {
        if l is Some {
            assert(common_multiple(pair, l->0 as nat));
        } else {
            assert forall|m: nat| is_lcm(pair, m) implies m > u64::MAX by {}
        }
    }
    l
}

/// A common multiple of a list is one of its front and of its last number.
proof fn lemma_common_multiple_push(front: Seq<u64>, last: u64, m: nat)
    ensures
        common_multiple(front.push(last), m) <==> common_multiple(front, m) && last > 0 && m % (
        last as nat) == 0,
{
    let all = front.push(last);
    if common_multiple(all, m) {
        assert(all[front.len() as int] == last);
        assert forall|i: int| 0 <= i < front.len() implies front[i] > 0 && m % (front[i] as nat)
            == 0 by {
            assert(all[i] == front[i]);
        }
    }
}

/// The least common multiple of a list divides every common multiple.
proof fn lemma_lcm_divides(numbers: Seq<u64>, l: nat, m: nat)
    requires
        !numbers.contains(0),
        is_lcm(numbers, l),
        common_multiple(numbers, m),
    ensures
        m % l == 0,
{
    lemma_fundamental_div_mod(m as int, l as int);
    let r = m % l;
    let q = m / l;
    if r > 0 {
        assert forall|i: int| 0 <= i < numbers.len() implies r % (numbers[i] as nat) == 0 by {
            let n = numbers[i] as nat;
            let s = lemma_quotient(m, n);
            let t = lemma_quotient(l, n);
            assert(r == (s - q * t) * n) by (nonlinear_arith)
                requires
                    m == l * q + r,
                    m == s * n,
                    l == t * n,
            ;
            lemma_multiple(s - q * t, n, r);
        }
        assert(common_multiple(numbers, r));
        assert(r < l) by {
            vstd::arithmetic::div_mod::lemma_mod_bound(m as int, l as int);
        }
    }
}

/// The least common multiple of the numbers, or `None` where it does not fit
/// in 64 bits. It is 1 for an empty list and 0 for a list that holds 0.
pub fn lcm_of_list(numbers: &Vec<u64>) -> (l: Option<u64>)
    ensures
        match l {
            Some(l) => is_lcm(numbers@, l as nat),
            None => forall|m: nat| is_lcm(numbers@, m) ==> m > u64::MAX,
        },
{
    let mut i: usize = 0;
    while i < numbers.len()
        invariant
            i <= numbers@.len(),
            forall|j: int| 0 <= j < i ==> numbers@[j] != 0,
        decreases numbers@.len() - i,
    {
        if numbers[i] == 0 {
            assert(numbers@.contains(0));
            return Some(0);
        }
        i += 1;
    }
    assert(!numbers@.contains(0));
    let mut acc: u64 = 1;
    let mut i: usize = 0;
    assert(numbers@.take(0) =~= Seq::empty());
    while i < numbers.len()
        invariant
            i <= numbers@.len(),
            !numbers@.contains(0),
            is_lcm(numbers@.take(i as int), acc as nat),
        decreases numbers@.len() - i,
    {
        let ghost front = numbers@.take(i as int);
        let ghost all = numbers@.take(i + 1);
        let x = numbers[i];
        proof {
            assert(all =~= front.push(x));
            assert(numbers@.contains(x));
            assert(!front.contains(0)) by {
                if front.contains(0) {
                    let j = choose|j: int| 0 <= j < front.len() && front[j] == 0;
                    assert(numbers@[j] == 0);
                }
            }
            assert(!all.contains(0)) by {
                if all.contains(0) {
                    let j = choose|j: int| 0 <= j < all.len() && all[j] == 0;
                    assert(numbers@[j] == 0);
                }
            }
            assert forall|m: nat| common_multiple(all, m) <==> common_multiple(seq![acc, x], m) by {
                lemma_common_multiple_push(front, x, m);
                let pair = seq![acc, x];
                if common_multiple(all, m) {
                    lemma_lcm_divides(front, acc as nat, m);
                    assert forall|k: int| 0 <= k < pair.len() implies pair[k] > 0 && m % (
                    pair[k] as nat) == 0 by {}
                }
                if common_multiple(pair, m) {
                    assert(pair[0] == acc && pair[1] == x);
                    assert forall|k: int| 0 <= k < front.len() implies front[k] > 0 && m % (
                    front[k] as nat) == 0 by {
                        let n = front[k] as nat;
                        let s = lemma_quotient(m, acc as nat);
                        let t = lemma_quotient(acc as nat, n);
                        assert(m == s * t * n) by (nonlinear_arith)
                            requires
                                m == s * acc,
                                acc == t * n,
                        ;
                        lemma_multiple((s * t) as int, n, m);
                    }
                }
            }
            assert(!seq![acc, x].contains(0)) by {
                let pair = seq![acc, x];
                if pair.contains(0) {
                    let j = choose|j: int| 0 <= j < pair.len() && pair[j] == 0;
                }
            }
        }
        match lcm(acc, x) {
            Some(next) => {
                acc = next;
            },
            None => {
                proof {
                    assert forall|m: nat| is_lcm(numbers@, m) implies m > u64::MAX by {
                        assert forall|k: int| 0 <= k < all.len() implies all[k] > 0 && m % (
                        all[k] as nat) == 0 by {
                            assert(all[k] == numbers@[k]);
                        }
                        assert(common_multiple(all, m));
                        lemma_lcm_pair_exists(acc, x);
                        let least = choose|least: nat| is_lcm(seq![acc, x], least);
                        assert(least <= m);
                    }
                }
                return None;
            },
        }
        i += 1;
    }
    assert(numbers@.take(i as int) =~= numbers@);
    Some(acc)
}

/// Two positive numbers have a least common multiple.
proof fn lemma_lcm_pair_exists(a: u64, b: u64)
    requires
        a > 0,
        b > 0,
    ensures
        exists|l: nat| is_lcm(seq![a, b], l),
{
    let pair = seq![a, b];
    let (x, y) = lemma_bezout(a as nat, b as nat);
    let g = euclid(a as nat, b as nat);
    assert(is_gcd(a as nat, b as nat, g)) by {
        assert forall|d: nat| common_divisor(a as nat, b as nat, d) implies d <= g by {
            let p = lemma_quotient(a as nat, d);
            let q = lemma_quotient(b as nat, d);
            assert(g == (x * p + y * q) * d) by (nonlinear_arith)
                requires
                    x * a + y * b == g,
                    a == p * d,
                    b == q * d,
            ;
            assert(g >= d) by (nonlinear_arith)
                requires
                    g == (x * p + y * q) * d,
                    g > 0,
                    d > 0,
            ;
        }
    }
    let l = (a as nat) / g * (b as nat);
    lemma_lcm_pair(a as nat, b as nat, g, 1);
    assert(!pair.contains(0)) by {
        if pair.contains(0) {
            let j = choose|j: int| 0 <= j < pair.len() && pair[j] == 0;
        }
    }
    assert(common_multiple(pair, l));
    assert forall|m: nat| common_multiple(pair, m) implies l <= m by {
        assert(pair[0] == a && pair[1] == b);
        lemma_lcm_pair(a as nat, b as nat, g, m);
    }
    assert(is_lcm(pair, l));
}

} // verus!
