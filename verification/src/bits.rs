//! Power-of-two arithmetic and the bit-reversal permutation index map.

use vstd::prelude::*;
use vstd::arithmetic::power2::{
    pow2, is_pow2, lemma_pow2_unfold, lemma_pow2_adds, lemma_pow2_strictly_increases, lemma2_to64,
    lemma_pow2_pos,
};
use vstd::arithmetic::div_mod::{
    lemma_fundamental_div_mod, lemma_fundamental_div_mod_converse, lemma_mod_multiples_vanish,
};

verus! {

/// The base-two logarithm of `n`, rounded down.
pub open spec fn lg(n: nat) -> nat
    decreases n,
{
    if n <= 1 {
        0
    } else {
        (1 + lg(n / 2)) as nat
    }
}

/// A power of two is positive.
pub proof fn lemma_is_pow2_pos(n: int)
    requires
        is_pow2(n),
    ensures
        1 <= n,
{
    reveal(is_pow2);
}

/// A power of two above one halves to a power of two, one level down.
pub proof fn lemma_is_pow2_half(n: int)
    requires
        is_pow2(n),
        2 <= n,
    ensures
        is_pow2(n / 2),
        n % 2 == 0,
        lg(n as nat) == lg((n / 2) as nat) + 1,
{
    reveal(is_pow2);
}

/// A power of two is two to its own logarithm.
pub proof fn lemma_pow2_lg(n: nat)
    requires
        is_pow2(n as int),
    ensures
        n == pow2(lg(n)),
    decreases n,
{
    reveal(is_pow2);
    if n <= 1 {
        assert(n == 1);
        lemma2_to64();
    } else {
        lemma_pow2_lg((n / 2) as nat);
        lemma_pow2_unfold(lg(n));
    }
}

/// Two to any exponent satisfies the power-of-two predicate.
pub proof fn lemma_pow2_is_pow2(e: nat)
    ensures
        is_pow2(pow2(e) as int),
    decreases e,
{
    reveal(is_pow2);
    if e == 0 {
        lemma2_to64();
    } else {
        lemma_pow2_is_pow2((e - 1) as nat);
        lemma_pow2_unfold(e);
        lemma_pow2_pos((e - 1) as nat);
    }
}

/// Powers of two with equal values have equal exponents.
pub proof fn lemma_pow2_injective(a: nat, b: nat)
    requires
        pow2(a) == pow2(b),
    ensures
        a == b,
{
    if a < b {
        lemma_pow2_strictly_increases(a, b);
    } else if b < a {
        lemma_pow2_strictly_increases(b, a);
    }
}

/// A smaller power of two divides a larger one, and fits at least twice.
pub proof fn lemma_pow2_ordering(s: nat, n: nat)
    requires
        is_pow2(s as int),
        is_pow2(n as int),
        s < n,
    ensures
        2 * s <= n,
        is_pow2(2 * s as int),
        n % (2 * s) == 0,
        lg(2 * s as nat) == lg(s) + 1,
{
    lemma_pow2_lg(s);
    lemma_pow2_lg(n);
    let a = lg(s);
    let b = lg(n);
    if b <= a {
        if b < a {
            lemma_pow2_strictly_increases(b, a);
        }
        assert(false);
    }
    lemma_pow2_unfold((a + 1) as nat);
    assert(2 * s == pow2((a + 1) as nat));
    if a + 1 < b {
        lemma_pow2_strictly_increases((a + 1) as nat, b);
    }
    lemma_pow2_is_pow2((a + 1) as nat);
    lemma_pow2_adds((a + 1) as nat, (b - a - 1) as nat);
    lemma_pow2_pos((a + 1) as nat);
    assert(n == (2 * s) * pow2((b - a - 1) as nat));
    lemma_mod_multiples_vanish(pow2((b - a - 1) as nat) as int, 0, 2 * s as int);
    assert(((2 * s) * pow2((b - a - 1) as nat) as int + 0) % (2 * s as int) == 0int % (
    2 * s as int));
    lemma_pow2_is_pow2((a + 1) as nat);
    lemma_is_pow2_pos(2 * s as int);
    lemma_is_pow2_half(2 * s as int);
}

/// Two to a power outgrows the exponent.
pub proof fn lemma_pow2_gt_exp(e: nat)
    ensures
        e < pow2(e),
    decreases e,
{
    lemma2_to64();
    if e >= 1 {
        lemma_pow2_gt_exp((e - 1) as nat);
        lemma_pow2_unfold(e);
    }
}

/// The index with the low `l` binary digits of `i` written in reverse order.
pub open spec fn rev_bits(l: nat, i: nat) -> nat
    decreases l,
{
    if l == 0 {
        0
    } else {
        (i % 2) * pow2((l - 1) as nat) + rev_bits((l - 1) as nat, i / 2)
    }
}

/// A reversed index stays below two to the digit count.
pub proof fn lemma_rev_bits_bound(l: nat, i: nat)
    ensures
        rev_bits(l, i) < pow2(l),
    decreases l,
{
    if l == 0 {
        lemma2_to64();
    } else {
        lemma_rev_bits_bound((l - 1) as nat, i / 2);
        lemma_pow2_unfold(l);
        if i % 2 == 0 {
            assert((i % 2) * pow2((l - 1) as nat) == 0);
        } else {
            assert(i % 2 == 1);
            assert((i % 2) * pow2((l - 1) as nat) == pow2((l - 1) as nat));
        }
    }
}

/// Splitting a division chain: dividing by two and then by `q` is dividing
/// by `2 * q`, and the remainders interlock accordingly.
proof fn lemma_split_div(i: nat, q: nat)
    requires
        1 <= q,
    ensures
        (i % (2 * q)) % 2 == i % 2,
        (i % (2 * q)) / 2 == (i / 2) % q,
        i / (2 * q) == (i / 2) / q,
{
    let m = 2 * q;
    lemma_fundamental_div_mod(i as int, m as int);
    let bq = i as int / m as int;
    let r = i as int % m as int;
    lemma_fundamental_div_mod(r, 2);
    assert(i as int == m as int * bq + r);
    assert(r == 2 * (r / 2) + r % 2);
    assert(m as int * bq == 2 * (q as int * bq)) by (nonlinear_arith)
        requires
            m == 2 * q,
    ;
    assert(i as int == 2 * (q as int * bq + r / 2) + r % 2);
    lemma_fundamental_div_mod_converse(i as int, 2, q as int * bq + r / 2, r % 2);
    assert(i as int % 2 == r % 2);
    assert(i as int / 2 == q as int * bq + r / 2);
    assert(0 <= r / 2 < q as int);
    lemma_fundamental_div_mod_converse(i as int / 2, q as int, bq, r / 2);
}

/// The bit reversal read from the other end: the high digit of `i` becomes
/// the low digit of the result.
pub proof fn lemma_rev_bits_high(l: nat, i: nat)
    requires
        1 <= l,
        i < pow2(l),
    ensures
        rev_bits(l, i) == 2 * rev_bits((l - 1) as nat, i % pow2((l - 1) as nat)) + i / pow2(
            (l - 1) as nat,
        ),
    decreases l,
{
    lemma2_to64();
    if l == 1 {
        assert(pow2(0) == 1);
        assert(i % 1 == 0 && i / 1 == i);
        assert(rev_bits(1, i) == (i % 2) * pow2(0) + rev_bits(0, i / 2));
        assert(i < 2);
        assert(i % 2 == i);
    } else {
        let h = pow2((l - 1) as nat);
        let q = pow2((l - 2) as nat);
        lemma_pow2_unfold((l - 1) as nat);
        lemma_pow2_unfold(l);
        lemma_pow2_pos((l - 2) as nat);
        assert(h == 2 * q);
        lemma_split_div(i, q);
        // unfold the inner reversal of the remainder
        assert(rev_bits((l - 1) as nat, i % h) == ((i % h) % 2) * q + rev_bits(
            (l - 2) as nat,
            (i % h) / 2,
        ));
        // induction on the upper digits
        assert(i / 2 < h) by {
            assert(i < 2 * h);
        }
        lemma_rev_bits_high((l - 1) as nat, i / 2);
        assert(rev_bits((l - 1) as nat, i / 2) == 2 * rev_bits((l - 2) as nat, (i / 2) % q) + (i
            / 2) / q);
        assert(rev_bits(l, i) == (i % 2) * h + rev_bits((l - 1) as nat, i / 2));
        assert(2 * (((i % h) % 2) * q) == (i % 2) * h) by (nonlinear_arith)
            requires
                h == 2 * q,
                (i % h) % 2 == i % 2,
        ;
    }
}

/// Reversing the digits twice restores the index.
pub proof fn lemma_rev_bits_involution(l: nat, i: nat)
    requires
        i < pow2(l),
    ensures
        rev_bits(l, rev_bits(l, i)) == i,
    decreases l,
{
    if l == 0 {
        lemma2_to64();
    } else {
        let h = pow2((l - 1) as nat);
        let b = i % 2;
        let r = rev_bits((l - 1) as nat, i / 2);
        let x = rev_bits(l, i);
        assert(x == b * h + r);
        lemma_rev_bits_bound((l - 1) as nat, i / 2);
        lemma_rev_bits_bound(l, i);
        lemma_pow2_pos((l - 1) as nat);
        lemma_rev_bits_high(l, x);
        lemma_fundamental_div_mod_converse(x as int, h as int, b as int, r as int);
        assert(x % h == r && x / h == b);
        lemma_pow2_unfold(l);
        assert(i / 2 < h) by {
            assert(i < 2 * h);
        }
        lemma_rev_bits_involution((l - 1) as nat, i / 2);
        assert(rev_bits(l, x) == 2 * (i / 2) + i % 2);
        lemma_fundamental_div_mod(i as int, 2);
    }
}

/// Computes the reversal of the low `l` binary digits of `i`.
pub fn rev_index(l: usize, i: usize) -> (r: usize)
    requires
        i < pow2(l as nat),
        pow2(l as nat) <= usize::MAX,
    ensures
        r as nat == rev_bits(l as nat, i as nat),
        r < pow2(l as nat),
{
    let mut acc: usize = 0;
    let mut cur: usize = i;
    let mut b: usize = 0;
    proof {
        lemma2_to64();
    }
    while b < l
        invariant
            b <= l,
            acc < pow2(b as nat),
            pow2(l as nat) <= usize::MAX,
            rev_bits(l as nat, i as nat) == acc * pow2((l - b) as nat) + rev_bits(
                (l - b) as nat,
                cur as nat,
            ),
        decreases l - b,
    {
        proof {
            lemma_pow2_unfold((l - b) as nat);
            lemma_pow2_unfold((b + 1) as nat);
            assert(acc * pow2((l - b) as nat) == (2 * acc) * pow2((l - b - 1) as nat))
                by (nonlinear_arith)
                requires
                    pow2((l - b) as nat) == 2 * pow2((l - b - 1) as nat),
            ;
            assert(rev_bits((l - b) as nat, cur as nat) == (cur as nat % 2) * pow2(
                (l - b - 1) as nat,
            ) + rev_bits((l - b - 1) as nat, cur as nat / 2));
            assert((2 * acc + cur as nat % 2) * pow2((l - b - 1) as nat) == (2 * acc) * pow2(
                (l - b - 1) as nat,
            ) + (cur as nat % 2) * pow2((l - b - 1) as nat)) by (nonlinear_arith);
            if b + 1 < l {
                lemma_pow2_strictly_increases((b + 1) as nat, l as nat);
            }
            assert(pow2((b + 1) as nat) <= pow2(l as nat));
        }
        acc = acc * 2 + (cur % 2);
        cur = cur / 2;
        b = b + 1;
    }
    proof {
        assert(pow2(0) == 1) by {
            lemma2_to64();
        }
        assert(rev_bits(0, cur as nat) == 0);
        assert(acc * 1 == acc);
        lemma_rev_bits_bound(l as nat, i as nat);
    }
    acc
}

} // verus!
