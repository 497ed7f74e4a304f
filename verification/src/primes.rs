//! Primality and the facts about quadratic probing that the container's
//! proofs rest on: in a prime-sized table the first (p+1)/2 probe positions
//! of any key are pairwise distinct, so a table that is less than half full
//! always has an empty slot on every probe path.

use vstd::prelude::*;
use vstd::arithmetic::div_mod::*;
use vstd::arithmetic::mul::*;
use vstd::seq_lib::*;
use vstd::set_lib::*;

verus! {

/// A number is prime when it is at least 2 and has no divisor strictly
/// between 1 and itself.
pub open spec fn is_prime(p: int) -> bool {
    p >= 2 && forall|d: int| 1 < d < p ==> #[trigger] (p % d) != 0
}

/// The slot probed in step `n` of the quadratic probe sequence that starts
/// at slot `h` of a table of length `p`: the running index advances by the
/// successive odd offsets 1, 3, 5, ..., so after `n` steps it has moved by
/// `n * n` in total, wrapped modulo the table length.
pub open spec fn probe_at(h: int, n: int, p: int) -> int {
    (h + n * n) % p
}

/// A prime is odd once it exceeds 2.
pub proof fn lemma_prime_is_odd(p: int)
    requires
        is_prime(p),
        p > 2,
    ensures
        p % 2 == 1,
{
    assert(p % 2 != 0);
    lemma_mod_bound(p, 2);
}

/// Euclid's lemma for a factor already reduced below the prime: if a prime
/// `p` divides `a * b` and `0 < a < p`, then `p` divides `b`.  Proved by
/// descent on `a`, replacing `a` with `p % a`.
proof fn lemma_prime_divides_product_small(p: int, a: int, b: int)
    requires
        is_prime(p),
        0 < a < p,
        0 <= b,
        (a * b) % p == 0,
    ensures
        b % p == 0,
    decreases a,
{
    if a == 1 {
        assert(a * b == b) by { lemma_mul_basics(b); }
    } else {
        let q = p / a;
        let r = p % a;
        lemma_mod_bound(p, a);
        if r == 0 {
            // `a` would be a proper divisor of the prime `p`.
            assert(false);
        }
        lemma_fundamental_div_mod(p, a);
        // r * b == p * b - q * (a * b)
        assert(r * b == p * b - q * (a * b)) by {
            assert(r == p - q * a);
            lemma_mul_is_distributive_sub_other_way(b, p, q * a);
            assert((p - q * a) * b == p * b - (q * a) * b);
            lemma_mul_is_associative(q, a, b);
        }
        assert((p * b) % p == 0) by {
            lemma_mul_is_commutative(p, b);
            lemma_mod_multiples_basic(b, p);
        }
        assert((q * (a * b)) % p == 0) by {
            lemma_mul_mod_noop_right(q, a * b, p);
            assert(q * 0 == 0) by { lemma_mul_basics(q); }
            lemma_mod_bound(q * (a * b), p);
            assert(0int % p == 0) by { lemma_small_mod(0, p as nat); }
        }
        assert((r * b) % p == 0) by {
            lemma_sub_mod_noop(p * b, q * (a * b), p);
            assert((p * b - q * (a * b)) % p == (0 - 0) % p);
            assert((0 - 0) % p == 0) by { lemma_small_mod(0, p as nat); }
        }
        lemma_prime_divides_product_small(p, r, b);
    }
}

/// Euclid's lemma: a prime that divides a product divides one of the
/// factors.
pub proof fn lemma_prime_divides_product(p: int, a: int, b: int)
    requires
        is_prime(p),
        0 <= a,
        0 <= b,
        (a * b) % p == 0,
    ensures
        a % p == 0 || b % p == 0,
{
    if a % p != 0 {
        let a_red = a % p;
        lemma_mod_bound(a, p);
        assert((a_red * b) % p == 0) by {
            lemma_mul_mod_noop_left(a, b, p);
        }
        lemma_prime_divides_product_small(p, a_red, b);
    }
}

/// Two numbers with equal remainders modulo `m` differ by a multiple of `m`.
proof fn lemma_equal_mod_sub(x: int, y: int, m: int)
    requires
        m > 0,
        x >= y,
        x % m == y % m,
    ensures
        (x - y) % m == 0,
{
    lemma_sub_mod_noop(x, y, m);
    assert((x % m - y % m) % m == (x - y) % m);
    assert((0int) % m == 0) by { lemma_small_mod(0, m as nat); }
}

/// Distinctness of quadratic probes in a prime-sized table: steps `i` and
/// `j` with `0 <= j < i <= (p - 1) / 2` land on different slots.  If they
/// met, `p` would divide `i * i - j * j == (i - j) * (i + j)`, yet both
/// factors lie strictly between 0 and `p`.
pub proof fn lemma_probe_distinct(h: int, p: int, i: int, j: int)
    requires
        is_prime(p),
        0 <= h < p,
        0 <= j < i,
        2 * i <= p - 1,
    ensures
        probe_at(h, i, p) != probe_at(h, j, p),
{
    if probe_at(h, i, p) == probe_at(h, j, p) {
        assert(i * i >= j * j) by {
            lemma_mul_inequality(j, i, i);
            lemma_mul_inequality(j, i, j);
            lemma_mul_is_commutative(i, j);
        }
        lemma_equal_mod_sub(h + i * i, h + j * j, p);
        assert((i * i - j * j) % p == 0);
        assert((i - j) * (i + j) == i * i - j * j) by {
            lemma_mul_is_distributive_sub_other_way(i + j, i, j);
            assert((i - j) * (i + j) == i * (i + j) - j * (i + j));
            lemma_mul_is_distributive_add(i, i, j);
            lemma_mul_is_distributive_add(j, i, j);
            lemma_mul_is_commutative(i, j);
        }
        lemma_prime_divides_product(p, i - j, i + j);
        assert(0 < i - j < p);
        assert(0 < i + j < p);
        assert((i - j) % p == i - j) by { lemma_small_mod((i - j) as nat, p as nat); }
        assert((i + j) % p == i + j) by { lemma_small_mod((i + j) as nat, p as nat); }
        assert(false);
    }
}

/// Pigeonhole over a probe prefix: if the first `m` probe slots of a key
/// all belong to a duplicate-free sequence `occ` of slots (with
/// `2 * m <= p + 1`, so the probes are pairwise distinct), then `occ` has at
/// least `m` elements.
pub proof fn lemma_probe_prefix_pigeonhole(h: int, p: int, m: int, occ: Seq<int>)
    requires
        is_prime(p),
        0 <= h < p,
        0 <= m,
        2 * m <= p + 1,
        occ.no_duplicates(),
        forall|n: int| 0 <= n < m ==> occ.contains(#[trigger] probe_at(h, n, p)),
    ensures
        m <= occ.len(),
{
    let probes = Seq::new(m as nat, |n: int| probe_at(h, n, p));
    assert(probes.no_duplicates()) by {
        assert forall|x: int, y: int| 0 <= x < m && 0 <= y < m && x != y
            implies probes[x] != probes[y] by {
            if x > y {
                lemma_probe_distinct(h, p, x, y);
            } else {
                lemma_probe_distinct(h, p, y, x);
            }
        }
    }
    probes.unique_seq_to_set();
    occ.unique_seq_to_set();
    assert(probes.to_set().subset_of(occ.to_set())) by {
        assert forall|s: int| probes.to_set().contains(s) implies occ.to_set().contains(s) by {
            let n = choose|n: int| 0 <= n < probes.len() && probes[n] == s;
            assert(occ.contains(probe_at(h, n, p)));
        }
    }
    lemma_len_subset(probes.to_set(), occ.to_set());
}

} // verus!
