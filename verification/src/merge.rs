//! The subtree-merging algebra: what a stack of subtree digests and their
//! covered byte lengths looks like, how pushes and merges rewrite it, and the
//! proof that folding such a stack to a root reproduces the one-shot tree
//! hash.
use vstd::prelude::*;
use crate::CHUNK_SIZE;
use crate::geometry::is_chunk_pow2;
use crate::geometry::is_pow2;
use crate::geometry::lemma_chunk_pow2_gap;
use crate::geometry::lemma_chunk_pow2_ge;
use crate::geometry::lemma_div_add_exact;
use crate::geometry::lemma_div_lt_exact;
use vstd::arithmetic::div_mod::lemma_fundamental_div_mod;
use vstd::arithmetic::div_mod::lemma_mod_multiples_basic;
use vstd::arithmetic::div_mod::lemma_div_multiples_vanish;
use vstd::arithmetic::mul::lemma_mul_inequality;
use vstd::arithmetic::mul::lemma_mul_is_commutative;
use crate::geometry::lemma_pow2_mul;
use crate::geometry::lemma_popcount_add_high;
use crate::geometry::lemma_popcount_add_pow2_le;
use crate::geometry::lemma_popcount_pow2;
use crate::geometry::popcount;
use crate::node::Finalization;
use crate::node::spec_parent_hash;
use crate::tree::lemma_tree_compose;
use crate::tree::spec_hash;
use crate::tree::spec_tree_hash;

verus! {

/// The total number of bytes covered by a sequence of subtree lengths.
pub open spec fn sum_lens(ls: Seq<nat>) -> nat
    decreases ls.len(),
{
    if ls.len() == 0 {
        0
    } else {
        ls[0] + sum_lens(ls.skip(1))
    }
}

/// The stack shape the merging discipline maintains: every entry but the
/// last is a chunk-aligned power of two, those entries strictly decrease
/// left to right, and the last entry is nonempty and no larger than its
/// neighbour.
pub open spec fn staircase(ls: Seq<nat>) -> bool {
    &&& forall|i: int| 0 <= i < ls.len() ==> #[trigger] ls[i] >= 1
    &&& forall|i: int| 0 <= i < ls.len() - 1 ==> is_chunk_pow2(#[trigger] ls[i])
    &&& forall|i: int| 0 <= i < ls.len() - 2 ==> #[trigger] ls[i] > ls[i + 1]
    &&& (ls.len() >= 2 ==> ls[ls.len() - 2] >= ls[ls.len() - 1])
}

/// Whether every entry is a power of two times the push unit `unit`.
pub open spec fn uniform(ls: Seq<nat>, unit: nat) -> bool {
    forall|i: int| 0 <= i < ls.len() ==> (#[trigger] ls[i]) % unit == 0 && is_pow2(ls[i] / unit)
}

/// A merge is pending when the stack holds more digests than the chunk
/// count has set bits.
pub open spec fn needs_merge_spec(k: nat, total: nat) -> bool {
    k > popcount(total / (CHUNK_SIZE as nat))
}

/// One merge: the top two digests are replaced by their parent digest.
pub open spec fn merge_once_digests(ds: Seq<Seq<u8>>, fin: Finalization) -> Seq<Seq<u8>>
    recommends ds.len() >= 2,
{
    ds.take(ds.len() - 2).push(spec_parent_hash(ds[ds.len() - 2], ds[ds.len() - 1], fin))
}

/// One merge on the length side: the top two lengths are added.
pub open spec fn merge_once_lens(ls: Seq<nat>) -> Seq<nat>
    recommends ls.len() >= 2,
{
    ls.take(ls.len() - 2).push((ls[ls.len() - 2] + ls[ls.len() - 1]) as nat)
}

/// The carry loop run before a push: merge the top two entries as interior
/// nodes while a merge is pending.
pub open spec fn carry_merges(ds: Seq<Seq<u8>>, ls: Seq<nat>, total: nat) -> (Seq<Seq<u8>>, Seq<
    nat,
>)
    decreases ds.len(),
{
    if ds.len() >= 2 && needs_merge_spec(ds.len(), total) {
        carry_merges(merge_once_digests(ds, Finalization::NotRoot), merge_once_lens(ls), total)
    } else {
        (ds, ls)
    }
}

/// The final fold: merge as interior nodes down to two digests, combine
/// those two under the root finalization, and return the root digest. A
/// single digest is returned as it stands.
pub open spec fn fold_finish(ds: Seq<Seq<u8>>, total: nat) -> Seq<u8>
    decreases ds.len(),
{
    if ds.len() >= 3 {
        fold_finish(merge_once_digests(ds, Finalization::NotRoot), total)
    } else if ds.len() == 2 {
        spec_parent_hash(ds[0], ds[1], Finalization::Root(total as u64))
    } else if ds.len() == 1 {
        ds[0]
    } else {
        Seq::empty()
    }
}

/// The byte range of `input` covered by stack entry `i`.
pub open spec fn seg_of(input: Seq<u8>, ls: Seq<nat>, i: int) -> Seq<u8>
    recommends 0 <= i < ls.len(),
{
    input.subrange(
        sum_lens(ls.take(i)) as int,
        sum_lens(ls.take(i)) as int + ls[i] as int,
    )
}

/// The stack tracks `input`: the lengths tile `input` from left to right
/// and every digest is the interior tree hash of its segment.
pub open spec fn tracks(ds: Seq<Seq<u8>>, ls: Seq<nat>, input: Seq<u8>) -> bool {
    &&& ds.len() == ls.len()
    &&& sum_lens(ls) == input.len()
    &&& forall|i: int|
        0 <= i < ds.len() ==> #[trigger] ds[i] == spec_tree_hash(
            seg_of(input, ls, i),
            Finalization::NotRoot,
        )
}

/// Appending to a sequence adds its entry to the sum.
pub proof fn lemma_sum_push(ls: Seq<nat>, x: nat)
    ensures
        sum_lens(ls.push(x)) == sum_lens(ls) + x,
    decreases ls.len(),
{
    if ls.len() == 0 {
        assert(ls.push(x).skip(1) =~= Seq::<nat>::empty());
        assert(ls.push(x)[0] == x);
        assert(sum_lens(Seq::<nat>::empty()) == 0);
    } else {
        assert(ls.push(x).skip(1) =~= ls.skip(1).push(x));
        assert(ls.push(x)[0] == ls[0]);
        lemma_sum_push(ls.skip(1), x);
    }
}

/// A sum splits at any index.
pub proof fn lemma_sum_split(ls: Seq<nat>, i: int)
    requires
        0 <= i <= ls.len(),
    ensures
        sum_lens(ls) == sum_lens(ls.take(i)) + sum_lens(ls.skip(i)),
    decreases i,
{
    if i == 0 {
        assert(ls.take(0) =~= Seq::<nat>::empty());
        assert(ls.skip(0) =~= ls);
    } else {
        assert(ls.take(i)[0] == ls[0]);
        assert(ls.take(i).skip(1) =~= ls.skip(1).take(i - 1));
        assert(ls.skip(i) =~= ls.skip(1).skip(i - 1));
        lemma_sum_split(ls.skip(1), i - 1);
    }
}

/// One interior merge keeps the sum of lengths.
pub proof fn lemma_sum_merge(ls: Seq<nat>)
    requires
        ls.len() >= 2,
    ensures
        sum_lens(merge_once_lens(ls)) == sum_lens(ls),
{
    let k = ls.len() as int;
    lemma_sum_split(ls, k - 2);
    assert(ls.skip(k - 2)[0] == ls[k - 2]);
    assert(ls.skip(k - 2).skip(1) =~= ls.skip(k - 1));
    assert(ls.skip(k - 1)[0] == ls[k - 1]);
    assert(ls.skip(k - 1).skip(1) =~= Seq::<nat>::empty());
    assert(sum_lens(Seq::<nat>::empty()) == 0);
    assert(sum_lens(ls.skip(k - 1)) == ls[k - 1]);
    assert(sum_lens(ls.skip(k - 2)) == ls[k - 2] + ls[k - 1]);
    lemma_sum_push(ls.take(k - 2), (ls[k - 2] + ls[k - 1]) as nat);
}

/// Every entry divides the sum's divisibility: a sum of multiples of `d`
/// is a multiple of `d`.
pub proof fn lemma_sum_div(ls: Seq<nat>, d: nat)
    requires
        d >= 1,
        forall|i: int| 0 <= i < ls.len() ==> (#[trigger] ls[i]) % d == 0,
    ensures
        sum_lens(ls) % d == 0,
    decreases ls.len(),
{
    if ls.len() == 0 {
        assert(0nat % d == 0);
    } else {
        assert(forall|i: int| 0 <= i < ls.skip(1).len() ==> (#[trigger] ls.skip(1)[i]) % d == 0)
            by {
            assert(forall|i: int|
                0 <= i < ls.skip(1).len() ==> ls.skip(1)[i] == ls[i + 1]);
        }
        lemma_sum_div(ls.skip(1), d);
        assert(ls[0] % d == 0);
        lemma_div_add_exact(ls[0], sum_lens(ls.skip(1)), d);
    }
}

/// A strictly decreasing stack of chunk-aligned powers of two has exactly
/// one set bit in the chunk count for each entry, and its sum stays below
/// twice its first entry.
pub proof fn lemma_strict_popcount(ls: Seq<nat>)
    requires
        forall|i: int| 0 <= i < ls.len() ==> is_chunk_pow2(#[trigger] ls[i]),
        forall|i: int| 0 <= i < ls.len() - 1 ==> #[trigger] ls[i] > ls[i + 1],
    ensures
        sum_lens(ls) % (CHUNK_SIZE as nat) == 0,
        popcount(sum_lens(ls) / (CHUNK_SIZE as nat)) == ls.len(),
        ls.len() >= 1 ==> sum_lens(ls) < 2 * ls[0],
    decreases ls.len(),
{
    let c = CHUNK_SIZE as nat;
    if ls.len() == 0 {
        assert(popcount(0) == 0);
        assert(0nat % c == 0);
        assert(0nat / c == 0);
    } else {
        let rest = ls.skip(1);
        assert(forall|i: int| 0 <= i < rest.len() ==> rest[i] == ls[i + 1]);
        lemma_strict_popcount(rest);
        let s0 = ls[0];
        let sr = sum_lens(rest);
        lemma_chunk_pow2_ge(s0);
        if ls.len() == 1 {
            assert(sr == 0);
            lemma_popcount_pow2(s0 / c);
            assert(sum_lens(ls) == s0);
        } else {
            lemma_chunk_pow2_gap(s0, ls[1]);
            assert(sr < 2 * ls[1]);
            assert(sr < s0);
            lemma_div_add_exact(s0, sr, c);
            if sr > 0 {
                lemma_div_lt_exact(sr, s0, c);
            } else {
                assert(0nat / c == 0);
                assert(s0 / c >= 1);
            }
            lemma_popcount_add_high(s0 / c, sr / c);
        }
    }
}

/// With the top two entries equal, the chunk count has strictly fewer set
/// bits than the stack has entries: a merge is pending.
pub proof fn lemma_dup_popcount(ls: Seq<nat>)
    requires
        ls.len() >= 2,
        forall|i: int| 0 <= i < ls.len() ==> is_chunk_pow2(#[trigger] ls[i]),
        forall|i: int| 0 <= i < ls.len() - 2 ==> #[trigger] ls[i] > ls[i + 1],
        ls[ls.len() - 1] == ls[ls.len() - 2],
    ensures
        popcount(sum_lens(ls) / (CHUNK_SIZE as nat)) < ls.len(),
{
    let c = CHUNK_SIZE as nat;
    let k = ls.len() as int;
    let p = ls[k - 2];
    let front = ls.take(k - 2);
    assert(forall|i: int| 0 <= i < front.len() ==> front[i] == ls[i]);
    lemma_strict_popcount(front);
    let fs = sum_lens(front);
    lemma_sum_split(ls, k - 2);
    assert(ls.skip(k - 2)[0] == ls[k - 2]);
    assert(ls.skip(k - 2).skip(1) =~= ls.skip(k - 1));
    assert(ls.skip(k - 1)[0] == ls[k - 1]);
    assert(ls.skip(k - 1).skip(1) =~= Seq::<nat>::empty());
    assert(sum_lens(Seq::<nat>::empty()) == 0);
    assert(sum_lens(ls.skip(k - 1)) == ls[k - 1]);
    assert(sum_lens(ls.skip(k - 2)) == ls[k - 2] + ls[k - 1]);
    assert(sum_lens(ls) == fs + 2 * p);
    lemma_chunk_pow2_ge(p);
    let q = p / c;
    let h = 2 * q;
    assert(is_pow2(h)) by {
        assert(h % 2 == 0);
        assert(h / 2 == q);
    }
    lemma_div_add_exact(p, p, c);
    assert((2 * p) / c == h);
    assert((2 * p) % c == 0);
    // every front entry is a multiple of c * h
    assert(forall|i: int| 0 <= i < front.len() ==> (#[trigger] front[i]) % (c * h) == 0) by {
        assert forall|i: int| 0 <= i < front.len() implies (#[trigger] front[i]) % (c * h) == 0 by {
            let e = front[i];
            assert(e == ls[i]);
            assert(is_chunk_pow2(e));
            assert(is_chunk_pow2(p));
            assert(e > p) by {
                lemma_staircase_prefix_ge(ls, i, k - 3);
                assert(ls[k - 3] > ls[k - 2]);
            }
            lemma_chunk_pow2_gap(e, p);
            lemma_fundamental_div_mod(e as int, c as int);
            assert(e == c * (e / c));
            assert(e / c > q) by {
                lemma_div_lt_exact(p, e, c);
            }
            crate::geometry::lemma_pow2_gap(e / c, q);
            assert((e / c) % h == 0);
            let m = (e / c) / h;
            lemma_fundamental_div_mod(e as int / c as int, h as int);
            assert(e / c == h * m);
            assert(e as int == (c as int * h as int) * m) by (nonlinear_arith)
                requires
                    e as int == c as int * (e as int / c as int),
                    e as int / c as int == h as int * m,
            ;
            lemma_mul_is_commutative(c as int * h as int, m as int);
            lemma_mod_multiples_basic(m as int, c as int * h as int);
            assert(e as int % (c as int * h as int) == 0);
            assert(c as int * h as int == (c * h) as int);
            assert(e % (c * h) == 0);
        }
    }
    assert(c * h >= 1) by {
        lemma_mul_inequality(1int, c as int, h as int);
        lemma_mul_is_commutative(c as int, h as int);
        assert(c as int * h as int >= h);
    }
    lemma_sum_div(front, c * h);
    // fs / c is a multiple of h
    let w = fs / (c * h);
    lemma_fundamental_div_mod(fs as int, c as int * h as int);
    assert(fs == (c * h) * w);
    assert(fs as int == c as int * (h as int * w)) by (nonlinear_arith)
        requires
            fs as int == (c as int * h as int) * w,
    ;
    lemma_div_multiples_vanish(h as int * w, c as int);
    assert(fs as int / c as int == h as int * w);
    lemma_mod_multiples_basic(w as int, h as int);
    lemma_mul_is_commutative(h as int, w as int);
    assert((fs / c) % h == 0);
    lemma_div_add_exact(fs, 2 * p, c);
    assert(sum_lens(ls) / c == fs / c + h);
    lemma_popcount_add_pow2_le(fs / c, h);
    assert(popcount(sum_lens(ls) / c) <= popcount(fs / c) + 1);
    assert(popcount(fs / c) == k - 2);
}

/// Entries of a uniform stack are chunk-aligned powers of two and at least
/// one unit long.
pub proof fn lemma_uniform_chunk(ls: Seq<nat>, unit: nat)
    requires
        uniform(ls, unit),
        is_chunk_pow2(unit),
    ensures
        forall|i: int| 0 <= i < ls.len() ==> is_chunk_pow2(#[trigger] ls[i]) && ls[i] >= unit,
{
    let c = CHUNK_SIZE as nat;
    lemma_chunk_pow2_ge(unit);
    assert forall|i: int| 0 <= i < ls.len() implies is_chunk_pow2(#[trigger] ls[i]) && ls[i]
        >= unit by {
        let e = ls[i];
        let q = e / unit;
        lemma_fundamental_div_mod(e as int, unit as int);
        assert(e == unit * q);
        assert(q >= 1);
        lemma_mul_inequality(1int, q as int, unit as int);
        lemma_mul_is_commutative(unit as int, q as int);
        assert(e >= unit);
        let u = unit / c;
        lemma_fundamental_div_mod(unit as int, c as int);
        assert(unit == c * u);
        assert(e as int == c as int * (u as int * q as int)) by (nonlinear_arith)
            requires
                e as int == unit as int * q as int,
                unit as int == c as int * u as int,
        ;
        lemma_mul_is_commutative(c as int, u as int * q as int);
        lemma_mod_multiples_basic(u as int * q as int, c as int);
        assert(e % c == 0);
        lemma_div_multiples_vanish(u as int * q as int, c as int);
        assert(e / c == u * q);
        lemma_pow2_mul(u, q);
    }
}

/// In a uniform staircase, a pending merge means the top two entries are
/// equal; no pending merge means the chunk count has exactly one set bit
/// per entry.
pub proof fn lemma_uniform_merge_shape(ls: Seq<nat>, unit: nat, total: nat)
    requires
        staircase(ls),
        ls.len() >= 1 ==> uniform(ls, unit) && is_chunk_pow2(unit),
        sum_lens(ls) == total,
    ensures
        needs_merge_spec(ls.len(), total) ==> ls.len() >= 2 && ls[ls.len() - 1] == ls[ls.len()
            - 2],
        !needs_merge_spec(ls.len(), total) ==> popcount(total / (CHUNK_SIZE as nat)) == ls.len(),
{
    let c = CHUNK_SIZE as nat;
    let k = ls.len() as int;
    if k == 0 {
        assert(total == 0);
        assert(0nat / c == 0);
        assert(popcount(0) == 0);
    } else {
        lemma_uniform_chunk(ls, unit);
        if k >= 2 && ls[k - 1] == ls[k - 2] {
            lemma_dup_popcount(ls);
        } else {
            assert(forall|i: int| 0 <= i < k - 1 ==> #[trigger] ls[i] > ls[i + 1]) by {
                assert forall|i: int| 0 <= i < k - 1 implies #[trigger] ls[i] > ls[i + 1] by {
                    if i == k - 2 {
                        assert(ls[k - 2] >= ls[k - 1]);
                    }
                }
            }
            lemma_strict_popcount(ls);
        }
    }
}

/// An equal-top merge in a uniform staircase keeps the shape: the result is
/// again a uniform staircase covering the same bytes.
pub proof fn lemma_merge_uniform(ls: Seq<nat>, unit: nat)
    requires
        staircase(ls),
        uniform(ls, unit),
        is_chunk_pow2(unit),
        ls.len() >= 2,
        ls[ls.len() - 1] == ls[ls.len() - 2],
    ensures
        staircase(merge_once_lens(ls)),
        uniform(merge_once_lens(ls), unit),
        sum_lens(merge_once_lens(ls)) == sum_lens(ls),
{
    let k = ls.len() as int;
    let p = ls[k - 2];
    let nl = merge_once_lens(ls);
    lemma_sum_merge(ls);
    lemma_uniform_chunk(ls, unit);
    assert(forall|i: int| 0 <= i < nl.len() - 1 ==> nl[i] == ls[i]);
    if k >= 3 {
        lemma_chunk_pow2_gap(ls[k - 3], p);
        assert(nl[k - 3] >= nl[k - 2]);
    }
    let q = p / unit;
    lemma_fundamental_div_mod(p as int, unit as int);
    lemma_div_add_exact(p, p, unit);
    assert((2 * p) / unit == 2 * q);
    assert(is_pow2(2 * q)) by {
        assert((2 * q) % 2 == 0);
        assert((2 * q) / 2 == q);
    }
    assert(uniform(nl, unit)) by {
        assert(forall|i: int| 0 <= i < nl.len() - 1 ==> nl[i] == ls[i]);
        assert(nl[nl.len() - 1] == 2 * p);
        assert((2 * p) % unit == 0);
    }
}

/// An interior merge of the top two entries keeps the tracking relation:
/// the parent digest is the tree hash of the two adjacent segments joined.
#[verifier::rlimit(50)]
pub proof fn lemma_merge_tracks(ds: Seq<Seq<u8>>, ls: Seq<nat>, input: Seq<u8>)
    requires
        staircase(ls),
        tracks(ds, ls, input),
        ds.len() >= 2,
    ensures
        tracks(
            merge_once_digests(ds, Finalization::NotRoot),
            merge_once_lens(ls),
            input,
        ),
        staircase(merge_once_lens(ls)),
{
    let k = ls.len() as int;
    let nd = merge_once_digests(ds, Finalization::NotRoot);
    let nl = merge_once_lens(ls);
    lemma_sum_merge(ls);
    // staircase of the merged lengths
    if k >= 3 {
        lemma_chunk_pow2_gap(ls[k - 3], ls[k - 2]);
    }
    assert(forall|i: int| 0 <= i < nl.len() - 1 ==> nl[i] == ls[i]);
    // offsets
    let off = sum_lens(ls.take(k - 2));
    assert(ls.take(k - 1) =~= ls.take(k - 2).push(ls[k - 2]));
    lemma_sum_push(ls.take(k - 2), ls[k - 2]);
    assert(sum_lens(ls.take(k - 1)) == off + ls[k - 2]);
    lemma_sum_split(ls, k - 2);
    assert(ls.skip(k - 2)[0] == ls[k - 2]);
    assert(ls.skip(k - 2).skip(1) =~= ls.skip(k - 1));
    assert(ls.skip(k - 1)[0] == ls[k - 1]);
    assert(ls.skip(k - 1).skip(1) =~= Seq::<nat>::empty());
    assert(sum_lens(Seq::<nat>::empty()) == 0);
    assert(sum_lens(ls.skip(k - 1)) == ls[k - 1]);
    assert(sum_lens(ls.skip(k - 2)) == ls[k - 2] + ls[k - 1]);
    assert(off + ls[k - 2] + ls[k - 1] == input.len());
    let sa = seg_of(input, ls, k - 2);
    let sb = seg_of(input, ls, k - 1);
    assert(nl.take(k - 2) =~= ls.take(k - 2));
    let sm = seg_of(input, nl, k - 2);
    assert(sm =~= sa + sb);
    assert(sa.len() == ls[k - 2]);
    assert(sb.len() == ls[k - 1]);
    lemma_tree_compose(sa, sb, Finalization::NotRoot);
    assert(nd[k - 2] == spec_tree_hash(sm, Finalization::NotRoot));
    assert forall|i: int| 0 <= i < nd.len() implies #[trigger] nd[i] == spec_tree_hash(
        seg_of(input, nl, i),
        Finalization::NotRoot,
    ) by {
        if i < k - 2 {
            assert(nd[i] == ds[i]);
            assert(nl.take(i) =~= ls.take(i));
            assert(nl[i] == ls[i]);
            assert(seg_of(input, nl, i) == seg_of(input, ls, i));
        }
    }
}

/// Carrying pending merges before a push keeps the uniform staircase and
/// the tracking relation, and ends with one stack entry per set bit of the
/// chunk count.
pub proof fn lemma_carry_tracks(ds: Seq<Seq<u8>>, ls: Seq<nat>, total: nat, input: Seq<u8>, unit: nat)
    requires
        staircase(ls),
        ls.len() >= 1 ==> uniform(ls, unit) && is_chunk_pow2(unit),
        sum_lens(ls) == total,
        tracks(ds, ls, input),
    ensures
        ({
            let (cds, cls) = carry_merges(ds, ls, total);
            &&& tracks(cds, cls, input)
            &&& staircase(cls)
            &&& uniform(cls, unit)
            &&& sum_lens(cls) == total
            &&& cds.len() == popcount(total / (CHUNK_SIZE as nat))
        }),
    decreases ds.len(),
{
    lemma_uniform_merge_shape(ls, unit, total);
    if ds.len() >= 2 && needs_merge_spec(ds.len(), total) {
        lemma_merge_uniform(ls, unit);
        lemma_merge_tracks(ds, ls, input);
        lemma_carry_tracks(
            merge_once_digests(ds, Finalization::NotRoot),
            merge_once_lens(ls),
            total,
            input,
            unit,
        );
    } else {
        if ls.len() == 0 {
            assert(uniform(ls, unit));
        }
    }
}

/// Appending a fresh subtree on the right extends the tracking relation.
pub proof fn lemma_tracks_append(ds: Seq<Seq<u8>>, ls: Seq<nat>, input: Seq<u8>, seg: Seq<u8>)
    requires
        tracks(ds, ls, input),
    ensures
        tracks(
            ds.push(spec_tree_hash(seg, Finalization::NotRoot)),
            ls.push(seg.len()),
            input + seg,
        ),
{
    let nd = ds.push(spec_tree_hash(seg, Finalization::NotRoot));
    let nl = ls.push(seg.len());
    lemma_sum_push(ls, seg.len());
    assert forall|i: int| 0 <= i < nd.len() implies #[trigger] nd[i] == spec_tree_hash(
        seg_of(input + seg, nl, i),
        Finalization::NotRoot,
    ) by {
        if i < ls.len() {
            assert(nl.take(i) =~= ls.take(i));
            assert(nl[i] == ls[i]);
            lemma_sum_split(ls, i);
            assert(ls.take(i) =~= ls.take(i + 1).take(i));
            lemma_sum_split(ls, i + 1);
            assert(ls.take(i + 1) =~= ls.take(i).push(ls[i]));
            lemma_sum_push(ls.take(i), ls[i]);
            assert(sum_lens(ls.take(i)) + ls[i] <= sum_lens(ls));
            assert(seg_of(input + seg, nl, i) =~= seg_of(input, ls, i));
        } else {
            assert(nl.take(i) =~= ls);
            assert(nl[i] == seg.len());
            assert(seg_of(input + seg, nl, i) =~= seg);
        }
    }
}

/// Folding a tracked staircase of at least two subtrees to a root yields
/// exactly the one-shot tree hash of the bytes it covers, finalized with
/// their total length.
pub proof fn lemma_fold_finish_root(ds: Seq<Seq<u8>>, ls: Seq<nat>, input: Seq<u8>)
    requires
        staircase(ls),
        tracks(ds, ls, input),
        ds.len() >= 2,
        input.len() <= u64::MAX,
    ensures
        fold_finish(ds, input.len()) == spec_hash(input),
    decreases ds.len(),
{
    let k = ds.len() as int;
    if k >= 3 {
        lemma_merge_tracks(ds, ls, input);
        lemma_fold_finish_root(
            merge_once_digests(ds, Finalization::NotRoot),
            merge_once_lens(ls),
            input,
        );
    } else {
        let sa = seg_of(input, ls, 0);
        let sb = seg_of(input, ls, 1);
        assert(ls.take(0) =~= Seq::<nat>::empty());
        assert(sum_lens(Seq::<nat>::empty()) == 0);
        assert(ls.take(1) =~= Seq::<nat>::empty().push(ls[0]));
        lemma_sum_push(Seq::<nat>::empty(), ls[0]);
        lemma_sum_split(ls, 1);
        assert(ls.skip(1)[0] == ls[1]);
        assert(ls.skip(1).skip(1) =~= Seq::<nat>::empty());
        assert(ls[0] + ls[1] == input.len());
        assert(sa.len() == ls[0]);
        assert(sb.len() == ls[1]);
        lemma_tree_compose(sa, sb, Finalization::Root(input.len() as u64));
        assert(sa + sb =~= input);
        assert(fold_finish(ds, input.len()) == spec_parent_hash(
            ds[0],
            ds[1],
            Finalization::Root(input.len() as u64),
        ));
    }
}

/// Within the strictly decreasing region of a staircase, earlier entries
/// are at least as large.
pub proof fn lemma_staircase_prefix_ge(ls: Seq<nat>, i: int, j: int)
    requires
        forall|t: int| 0 <= t < ls.len() - 2 ==> #[trigger] ls[t] > ls[t + 1],
        0 <= i <= j,
        j < ls.len() - 1,
    ensures
        ls[i] >= ls[j],
    decreases j - i,
{
    if i < j {
        lemma_staircase_prefix_ge(ls, i, j - 1);
        assert(ls[j - 1] > ls[j]);
    }
}

} // verus!
