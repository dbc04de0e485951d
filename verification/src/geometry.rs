//! Tree geometry: how an input of a given length is split into a left and a
//! right subtree, and the power-of-two and popcount arithmetic behind the
//! subtree-merging discipline.
use vstd::prelude::*;
use vstd::arithmetic::div_mod::lemma_fundamental_div_mod;
use vstd::arithmetic::div_mod::lemma_fundamental_div_mod_converse;
use vstd::arithmetic::div_mod::lemma_div_is_ordered;
use vstd::arithmetic::div_mod::lemma_div_multiples_vanish;
use vstd::arithmetic::div_mod::lemma_mod_multiples_basic;
use vstd::arithmetic::mul::lemma_mul_inequality;
use vstd::arithmetic::mul::lemma_mul_is_commutative;
use crate::CHUNK_SIZE;

verus! {

/// The greatest power of two that is at most `n`, for `n >= 1`.
pub open spec fn lpot(n: nat) -> nat
    recommends n >= 1,
    decreases n,
{
    if n < 2 { 1 } else { 2 * lpot(n / 2) }
}

/// Whether `n` is a power of two.
pub open spec fn is_pow2(n: nat) -> bool
    decreases n,
{
    if n == 0 { false } else if n == 1 { true } else { n % 2 == 0 && is_pow2(n / 2) }
}

/// Whether `l` is a power of two times the chunk size.
pub open spec fn is_chunk_pow2(l: nat) -> bool {
    l % (CHUNK_SIZE as nat) == 0 && is_pow2(l / (CHUNK_SIZE as nat))
}

/// The number of set bits in the binary representation of `n`.
pub open spec fn popcount(n: nat) -> nat
    decreases n,
{
    if n == 0 { 0 } else { popcount(n / 2) + n % 2 }
}

/// Two to the power `e`.
pub open spec fn two_pow(e: nat) -> nat
    decreases e,
{
    if e == 0 { 1 } else { 2 * two_pow((e - 1) as nat) }
}

/// The byte length of the left subtree for an input of `n` bytes, when
/// `n` exceeds one chunk: the largest power of two full chunks that leaves
/// at least one byte for the right side.
pub open spec fn spec_left_len(n: nat) -> nat
    recommends n > CHUNK_SIZE,
{
    lpot((((n - 1) as int) / (CHUNK_SIZE as int)) as nat) * (CHUNK_SIZE as nat)
}

/// `lpot(n)` is a power of two between 1 and `n`.
pub proof fn lemma_lpot_bounds(n: nat)
    requires
        n >= 1,
    ensures
        1 <= lpot(n) <= n,
        is_pow2(lpot(n)),
    decreases n,
{
    if n >= 2 {
        lemma_lpot_bounds(n / 2);
        let m = lpot(n / 2);
        assert(2 * m <= 2 * (n / 2));
        assert((2 * m) % 2 == 0);
        assert((2 * m) / 2 == m);
        assert(is_pow2(2 * m));
    }
}

/// A power of two `p` with `p <= n < 2 * p` is exactly `lpot(n)`.
pub proof fn lemma_lpot_unique(n: nat, p: nat)
    requires
        is_pow2(p),
        p <= n,
        n < 2 * p,
    ensures
        lpot(n) == p,
    decreases n,
{
    if n < 2 {
        assert(p >= 1);
        if p >= 2 {
            assert(n >= 2);
        }
        assert(p == 1);
    } else {
        if p == 1 {
            assert(n < 2);
            assert(false);
        }
        assert(p % 2 == 0 && is_pow2(p / 2));
        assert(p / 2 <= n / 2);
        assert(n <= 2 * p - 1);
        assert(n / 2 < p) by {
            assert(n == 2 * (n / 2) + n % 2);
        }
        assert(n / 2 < 2 * (p / 2));
        lemma_lpot_unique(n / 2, p / 2);
        assert(lpot(n) == 2 * lpot(n / 2));
    }
}

/// A power of two strictly above another is at least its double, and is
/// divisible by it.
pub proof fn lemma_pow2_gap(x: nat, y: nat)
    requires
        is_pow2(x),
        is_pow2(y),
        y < x,
    ensures
        x >= 2 * y,
        x % (2 * y) == 0,
    decreases x,
{
    if y == 1 {
        assert(x >= 2);
        assert(x % 2 == 0);
    } else {
        assert(y % 2 == 0 && is_pow2(y / 2));
        assert(x >= 2);
        assert(x % 2 == 0 && is_pow2(x / 2));
        assert(y / 2 < x / 2);
        lemma_pow2_gap(x / 2, y / 2);
        assert(x / 2 >= 2 * (y / 2));
        assert(x == 2 * (x / 2));
        assert(y == 2 * (y / 2));
        assert((x / 2) % (2 * (y / 2)) == 0);
        let m = y as int / 2;
        let q = (x as int / 2) / (2 * m);
        lemma_fundamental_div_mod(x as int / 2, 2 * m);
        assert(x as int / 2 == (2 * m) * q);
        assert(x == 2 * ((2 * m) * q));
        assert(x as int == q * (2 * (2 * m))) by (nonlinear_arith)
            requires
                x as int == 2 * ((2 * m) * q),
        ;
        assert(2 * y as int == 2 * (2 * m));
        lemma_mod_multiples_basic(q, 2 * y as int);
    }
}

/// A product of two powers of two is a power of two.
pub proof fn lemma_pow2_mul(a: nat, b: nat)
    requires
        is_pow2(a),
        is_pow2(b),
    ensures
        is_pow2(a * b),
    decreases a,
{
    if a == 1 {
        assert(1 * b == b);
    } else {
        assert(a % 2 == 0 && is_pow2(a / 2));
        lemma_pow2_mul(a / 2, b);
        assert(a as int * b as int == 2 * ((a as int / 2) * b as int)) by (nonlinear_arith)
            requires
                a as int == 2 * (a as int / 2),
        ;
        assert((a * b) % 2 == 0);
        assert((a * b) / 2 == (a / 2) * b);
        assert(is_pow2(a * b));
    }
}

/// Sums and quotients of two multiples of `d` behave exactly.
pub proof fn lemma_div_add_exact(x: nat, y: nat, d: nat)
    requires
        d >= 1,
        x % d == 0,
        y % d == 0,
    ensures
        (x + y) % d == 0,
        (x + y) / d == x / d + y / d,
{
    lemma_fundamental_div_mod(x as int, d as int);
    lemma_fundamental_div_mod(y as int, d as int);
    assert(x + y == d * (x / d) + d * (y / d));
    assert(x as int + y as int == d as int * (x as int / d as int + y as int / d as int))
        by (nonlinear_arith)
        requires
            x as int + y as int == d as int * (x as int / d as int) + d as int * (y as int
                / d as int),
    ;
    lemma_fundamental_div_mod_converse(
        x as int + y as int,
        d as int,
        x as int / d as int + y as int / d as int,
        0,
    );
}

/// Of two distinct multiples of `d`, the smaller has the smaller quotient.
pub proof fn lemma_div_lt_exact(x: nat, y: nat, d: nat)
    requires
        d >= 1,
        x < y,
        x % d == 0,
        y % d == 0,
    ensures
        x / d < y / d,
{
    lemma_fundamental_div_mod(x as int, d as int);
    lemma_fundamental_div_mod(y as int, d as int);
    assert(x == d * (x / d));
    assert(y == d * (y / d));
    if x / d >= y / d {
        lemma_mul_inequality(y as int / d as int, x as int / d as int, d as int);
        lemma_mul_is_commutative(d as int, x as int / d as int);
        lemma_mul_is_commutative(d as int, y as int / d as int);
        assert(y <= x);
        assert(false);
    }
}

/// A nonzero multiple of the chunk size that is a power of two of chunks is
/// at least one chunk.
pub proof fn lemma_chunk_pow2_ge(l: nat)
    requires
        is_chunk_pow2(l),
    ensures
        l >= CHUNK_SIZE,
{
    let c = CHUNK_SIZE as int;
    lemma_fundamental_div_mod(l as int, c);
    assert(l == c * (l as int / c));
    assert(l as int / c >= 1);
    lemma_mul_inequality(1int, l as int / c, c);
    assert((l as int / c) * c >= 1 * c);
    lemma_mul_is_commutative(c, l as int / c);
}

/// Of two distinct chunk-aligned powers of two, the larger is at least
/// double the smaller.
pub proof fn lemma_chunk_pow2_gap(a: nat, b: nat)
    requires
        is_chunk_pow2(a),
        is_chunk_pow2(b),
        b < a,
    ensures
        a >= 2 * b,
    decreases a,
{
    let c = CHUNK_SIZE as nat;
    lemma_fundamental_div_mod(a as int, c as int);
    lemma_fundamental_div_mod(b as int, c as int);
    assert(a == c * (a / c));
    assert(b == c * (b / c));
    assert(b / c < a / c) by {
        if a / c <= b / c {
            lemma_mul_inequality(a as int / c as int, b as int / c as int, c as int);
            lemma_mul_is_commutative(c as int, a as int / c as int);
            lemma_mul_is_commutative(c as int, b as int / c as int);
        }
    }
    lemma_pow2_gap(a / c, b / c);
    assert(a / c >= 2 * (b / c));
    lemma_mul_inequality(2 * (b as int / c as int), a as int / c as int, c as int);
    lemma_mul_is_commutative(c as int, a as int / c as int);
    assert(a >= (2 * (b / c)) * c);
    assert((2 * (b as int / c as int)) * c as int == 2 * b) by {
        assert(b == c * (b / c));
        assert((2 * (b as int / c as int)) * c as int == 2 * (c as int * (b as int / c as int)));
    }
}

/// Splitting bounds for inputs above one chunk: the left side is a
/// chunk-aligned power of two, at least one chunk, and leaves at least one
/// byte on the right.
pub proof fn lemma_left_len(n: nat)
    requires
        n > CHUNK_SIZE,
    ensures
        is_chunk_pow2(spec_left_len(n)),
        CHUNK_SIZE <= spec_left_len(n),
        spec_left_len(n) < n,
        n - spec_left_len(n) >= 1,
{
    let c = CHUNK_SIZE as int;
    let fc = (n - 1) / c;
    lemma_div_is_ordered(c, n as int - 1, c);
    assert(c / c == 1);
    assert(fc >= 1);
    lemma_lpot_bounds(fc as nat);
    let p = lpot(fc as nat);
    assert(spec_left_len(n) == p * (c as nat));
    lemma_mod_multiples_basic(p as int, c);
    lemma_div_multiples_vanish(p as int, c);
    lemma_mul_is_commutative(c, p as int);
    assert((p * c as nat) % c as nat == 0);
    assert((p * c as nat) / c as nat == p);
    lemma_mul_inequality(p as int, fc, c);
    lemma_fundamental_div_mod(n as int - 1, c);
    assert(n - 1 == c * fc + (n as int - 1) % c);
    assert(fc * c <= n - 1);
    lemma_mul_inequality(1int, p as int, c);
    assert(c <= p * c);
}

/// When `a` is a chunk-aligned power of two and the right side `t` is
/// between one byte and `a` bytes, the split point of the combined length
/// `a + t` is exactly `a`.
pub proof fn lemma_left_len_exact(a: nat, t: nat)
    requires
        is_chunk_pow2(a),
        1 <= t <= a,
    ensures
        spec_left_len(a + t) == a,
{
    let c = CHUNK_SIZE as int;
    let q = a as int / c;
    lemma_fundamental_div_mod(a as int, c);
    assert(a == c * q);
    let fc = (a + t - 1) as int / c;
    lemma_div_is_ordered(a as int, a + t as int - 1, c);
    assert(q <= fc);
    assert(a + t - 1 <= 2 * a - 1);
    assert(2 * a as int - 1 == (2 * q - 1) * c + (c - 1)) by {
        assert(a == c * q);
        assert((2 * q - 1) * c == 2 * (c * q) - c);
    }
    lemma_fundamental_div_mod_converse(2 * a as int - 1, c, 2 * q - 1, c - 1);
    assert((2 * a as int - 1) / c == 2 * q - 1);
    lemma_div_is_ordered(a + t as int - 1, 2 * a as int - 1, c);
    assert(fc <= 2 * q - 1);
    lemma_lpot_unique(fc as nat, q as nat);
    assert(lpot(fc as nat) == q);
    assert(spec_left_len(a + t) == (q as nat) * (c as nat));
    lemma_mul_is_commutative(c, q);
}

/// A power of two has exactly one set bit.
pub proof fn lemma_popcount_pow2(q: nat)
    requires
        is_pow2(q),
    ensures
        popcount(q) == 1,
    decreases q,
{
    if q >= 2 {
        lemma_popcount_pow2(q / 2);
    } else {
        assert(popcount(0) == 0);
    }
}

/// Adding a power of two above all the set bits of `b` adds one set bit.
pub proof fn lemma_popcount_add_high(a: nat, b: nat)
    requires
        is_pow2(a),
        b < a,
    ensures
        popcount(a + b) == 1 + popcount(b),
    decreases a,
{
    if a == 1 {
        assert(b == 0);
    } else {
        assert(a % 2 == 0 && is_pow2(a / 2));
        assert((a + b) % 2 == b % 2);
        assert((a + b) / 2 == a / 2 + b / 2);
        lemma_popcount_add_high(a / 2, b / 2);
    }
}

/// Incrementing adds at most one set bit.
pub proof fn lemma_popcount_succ(n: nat)
    ensures
        popcount(n + 1) <= popcount(n) + 1,
    decreases n,
{
    if n % 2 == 0 {
        assert((n + 1) / 2 == n / 2);
    } else {
        assert((n + 1) / 2 == n / 2 + 1);
        lemma_popcount_succ(n / 2);
    }
}

/// Adding a power of two that divides `f` adds at most one set bit.
pub proof fn lemma_popcount_add_pow2_le(f: nat, h: nat)
    requires
        is_pow2(h),
        f % h == 0,
    ensures
        popcount(f + h) <= popcount(f) + 1,
    decreases h,
{
    if h == 1 {
        lemma_popcount_succ(f);
    } else {
        assert(h % 2 == 0 && is_pow2(h / 2));
        let hh = h as int / 2;
        let g = f as int / h as int;
        lemma_fundamental_div_mod(f as int, h as int);
        assert(f == h * g);
        assert(f as int == 2 * (hh * g)) by (nonlinear_arith)
            requires
                f as int == h as int * g,
                h as int == 2 * hh,
        ;
        assert(f % 2 == 0);
        assert(f as int / 2 == hh * g);
        assert((f as int / 2) % hh == 0) by {
            lemma_mod_multiples_basic(g, hh);
            lemma_mul_is_commutative(hh, g);
        }
        assert((f + h) / 2 == f / 2 + h / 2);
        lemma_popcount_add_pow2_le(f / 2, h / 2);
    }
}

/// A number below `2^e` has at most `e` set bits.
pub proof fn lemma_popcount_bound(n: nat, e: nat)
    requires
        n < two_pow(e),
    ensures
        popcount(n) <= e,
    decreases e,
{
    if e == 0 {
        assert(n == 0);
    } else if n > 0 {
        assert(n / 2 < two_pow((e - 1) as nat)) by {
            assert(n <= 2 * two_pow((e - 1) as nat) - 1);
            assert(n == 2 * (n / 2) + n % 2);
        }
        lemma_popcount_bound(n / 2, (e - 1) as nat);
    }
}

/// A positive number has at least one set bit.
pub proof fn lemma_popcount_pos(n: nat)
    requires
        n >= 1,
    ensures
        popcount(n) >= 1,
    decreases n,
{
    if n >= 2 && n % 2 == 0 {
        lemma_popcount_pos(n / 2);
    }
}

/// Find the largest power of two that is at most `n`.
pub fn largest_power_of_two(n: u64) -> (r: u64)
    requires
        n >= 1,
    ensures
        r as nat == lpot(n as nat),
        is_pow2(r as nat),
        r <= n < 2 * (r as nat),
{
    let mut p: u64 = 1;
    while p <= n / 2
        invariant
            1 <= p <= n,
            is_pow2(p as nat),
        decreases n - p,
    {
        proof {
            assert(((2 * p) as nat) % 2 == 0);
            assert(((2 * p) as nat) / 2 == p as nat);
            assert(is_pow2((2 * p) as nat));
        }
        p = p * 2;
    }
    proof {
        assert(n as nat == 2 * ((n as nat) / 2) + (n as nat) % 2);
        assert((n as nat) < 2 * (p as nat));
        lemma_lpot_unique(n as nat, p as nat);
    }
    p
}

/// Given a length of more than one chunk, the byte length of the largest
/// perfect tree of chunks that can stand on the left.
pub fn left_len(content_len: u64) -> (r: u64)
    requires
        content_len > CHUNK_SIZE,
    ensures
        r as nat == spec_left_len(content_len as nat),
        is_chunk_pow2(r as nat),
        CHUNK_SIZE <= r < content_len,
{
    let full_chunks = (content_len - 1) / (CHUNK_SIZE as u64);
    proof {
        lemma_left_len(content_len as nat);
        lemma_lpot_bounds(full_chunks as nat);
        lemma_mul_inequality(
            lpot(full_chunks as nat) as int,
            full_chunks as int,
            CHUNK_SIZE as int,
        );
        lemma_fundamental_div_mod(content_len as int - 1, CHUNK_SIZE as int);
        lemma_mul_is_commutative(CHUNK_SIZE as int, full_chunks as int);
        assert(full_chunks * (CHUNK_SIZE as nat) <= content_len - 1);
    }
    let l = largest_power_of_two(full_chunks);
    l * (CHUNK_SIZE as u64)
}

/// Count the set bits of `x`.
pub fn popcount_u64(x: u64) -> (r: u64)
    ensures
        r as nat == popcount(x as nat),
{
    let mut y = x;
    let mut c: u64 = 0;
    proof {
        assert(two_pow(64) > 0xffffffffffffffff) by {
            reveal_with_fuel(two_pow, 65);
        }
        lemma_popcount_bound(x as nat, 64);
    }
    while y > 0
        invariant
            c + popcount(y as nat) == popcount(x as nat),
            popcount(x as nat) <= 64,
        decreases y,
    {
        if y % 2 == 1 {
            c = c + 1;
        }
        y = y / 2;
    }
    c
}

} // verus!
