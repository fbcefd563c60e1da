//! The mergeable quantile sketch.
//!
//! A sketch holds a bounded, mean-ordered sequence of centroids, each a
//! (mean, weight) pair over integer microsecond values. Ingesting a sample
//! inserts a weight-one centroid; when the sequence outgrows its bound it is
//! recompressed by a rank-based clustering rule that grants small weight
//! capacity to clusters near the 0th and 100th percentile and large capacity
//! near the median, so the tails keep finer resolution.

use vstd::prelude::*;
use vstd::multiset::Multiset;
use vstd::arithmetic::div_mod::{lemma_div_by_multiple, lemma_div_is_ordered, lemma_div_pos_is_pos};

verus! {

/// A cluster of nearby samples: the weight counts the samples the cluster
/// absorbed, the mean is their weighted average in microseconds.
#[derive(Clone, Copy, PartialEq, Eq, Structural, Debug)]
pub struct Centroid {
    pub mean: u64,
    pub weight: u64,
}

/// Canonical order on centroids: by mean, ties by weight.
pub open spec fn cent_le(a: Centroid, b: Centroid) -> bool {
    a.mean < b.mean || (a.mean == b.mean && a.weight <= b.weight)
}

/// The canonical order as a first-class relation.
pub open spec fn cent_leq() -> spec_fn(Centroid, Centroid) -> bool {
    |a: Centroid, b: Centroid| cent_le(a, b)
}

/// The canonical order is total, so a sorted arrangement of any multiset of
/// centroids is unique.
pub proof fn lemma_cent_leq_total_ordering()
    ensures
        vstd::relations::total_ordering(cent_leq()),
{
    let leq = cent_leq();
    assert forall|a: Centroid, b: Centroid| #[trigger] leq(a, b) && #[trigger] leq(b, a) implies a
        == b by {
        assert(a.mean == b.mean && a.weight == b.weight);
    }
}

pub open spec fn mean_sorted(s: Seq<Centroid>) -> bool {
    forall|i: int, j: int|
        0 <= i < j < s.len() ==> (#[trigger] s[i]).mean <= (#[trigger] s[j]).mean
}

pub open spec fn weights_positive(s: Seq<Centroid>) -> bool {
    forall|i: int| 0 <= i < s.len() ==> (#[trigger] s[i]).weight >= 1
}

/// Total weight of a centroid sequence.
pub open spec fn sum_weights(s: Seq<Centroid>) -> int
    decreases s.len(),
{
    if s.len() == 0 {
        0
    } else {
        sum_weights(s.drop_last()) + s.last().weight
    }
}

pub proof fn lemma_sum_concat(a: Seq<Centroid>, b: Seq<Centroid>)
    ensures
        sum_weights(a + b) == sum_weights(a) + sum_weights(b),
    decreases b.len(),
{
    if b.len() == 0 {
        assert(a + b =~= a);
    } else {
        lemma_sum_concat(a, b.drop_last());
        assert((a + b).drop_last() =~= a + b.drop_last());
        assert((a + b).last() == b.last());
    }
}

pub proof fn lemma_sum_singleton(c: Centroid)
    ensures
        sum_weights(seq![c]) == c.weight,
{
    reveal_with_fuel(sum_weights, 2);
    assert(seq![c].drop_last() =~= Seq::<Centroid>::empty());
    assert(sum_weights(Seq::<Centroid>::empty()) == 0);
}

pub proof fn lemma_sum_first(s: Seq<Centroid>)
    requires
        s.len() >= 1,
    ensures
        sum_weights(s) == s[0].weight + sum_weights(s.drop_first()),
{
    assert(s =~= seq![s[0]] + s.drop_first());
    lemma_sum_concat(seq![s[0]], s.drop_first());
    lemma_sum_singleton(s[0]);
}

pub proof fn lemma_sum_nonneg(s: Seq<Centroid>)
    requires
        weights_positive(s),
    ensures
        sum_weights(s) >= 0,
        s.len() >= 1 ==> sum_weights(s) >= 1,
    decreases s.len(),
{
    if s.len() > 0 {
        lemma_sum_nonneg(s.drop_last());
        assert(weights_positive(s.drop_last()));
    }
}

/// The weight of a prefix grows by one element's weight at a time.
pub proof fn lemma_sum_take_step(s: Seq<Centroid>, i: int)
    requires
        0 <= i < s.len(),
    ensures
        sum_weights(s.take(i + 1)) == sum_weights(s.take(i)) + s[i].weight,
{
    assert(s.take(i + 1).drop_last() =~= s.take(i));
    assert(s.take(i + 1).last() == s[i]);
}

pub proof fn lemma_sum_split(s: Seq<Centroid>, i: int)
    requires
        0 <= i <= s.len(),
    ensures
        sum_weights(s) == sum_weights(s.take(i)) + sum_weights(s.skip(i)),
{
    assert(s =~= s.take(i) + s.skip(i));
    lemma_sum_concat(s.take(i), s.skip(i));
}

/// The centroid that absorbs two adjacent clusters: weights add, the mean is
/// the weighted average, rounded down.
pub open spec fn merged_centroid(a: Centroid, b: Centroid) -> Centroid {
    Centroid {
        mean: ((a.mean * a.weight + b.mean * b.weight) / (a.weight + b.weight)) as u64,
        weight: (a.weight + b.weight) as u64,
    }
}

/// The weighted average of two means lies between them.
pub proof fn lemma_merged_centroid(a: Centroid, b: Centroid)
    requires
        a.weight >= 1,
        b.weight >= 1,
        a.weight + b.weight <= u64::MAX,
        a.mean <= b.mean,
    ensures
        merged_centroid(a, b).weight == a.weight + b.weight,
        a.mean <= merged_centroid(a, b).mean <= b.mean,
{
    let ma = a.mean as int;
    let mb = b.mean as int;
    let wa = a.weight as int;
    let wb = b.weight as int;
    let num = ma * wa + mb * wb;
    let w = wa + wb;
    assert(ma * w <= num && num <= mb * w) by (nonlinear_arith)
        requires
            ma <= mb,
            wa >= 1,
            wb >= 1,
            num == ma * wa + mb * wb,
            w == wa + wb,
    ;
    lemma_div_is_ordered(ma * w, num, w);
    lemma_div_is_ordered(num, mb * w, w);
    lemma_div_by_multiple(ma, w);
    lemma_div_by_multiple(mb, w);
}

/// The clustering rule: a cluster of weight `w` beginning after `cum` weight
/// units may form if `w` stays within the capacity that the rank of the
/// cluster's midpoint allows. The capacity is proportional to q(1-q) of that
/// rank, so it is smallest at the extreme ranks and largest at the median.
pub open spec fn within_capacity(cum: int, w: int, total: int, compression: int) -> bool {
    let q_ppm = (2 * cum + w) * 500000 / total;
    w <= 4 * total * q_ppm * (1000000 - q_ppm) / (compression * 1000000000000) + 1
}

/// The midpoint rank of a candidate cluster, in parts per million, never
/// exceeds one million.
proof fn lemma_q_ppm_bound(cum: int, w: int, total: int)
    requires
        total >= 1,
        cum >= 0,
        w >= 1,
        cum + w <= total,
    ensures
        0 <= (2 * cum + w) * 500000 / total <= 1000000,
{
    let x = 2 * cum + w;
    assert(x * 500000 <= total * 1000000) by (nonlinear_arith)
        requires
            x <= 2 * total,
            x >= 0,
    ;
    lemma_div_is_ordered(x * 500000, total * 1000000, total);
    lemma_div_by_multiple(1000000, total);
    assert(total * 1000000 == 1000000 * total) by (nonlinear_arith);
    lemma_div_pos_is_pos(x * 500000, total);
    assert(x * 500000 >= 0) by (nonlinear_arith)
        requires
            x >= 0,
    ;
}

/// Runtime form of the clustering rule.
fn within_capacity_x(cum: u64, w: u64, total: u64, compression: u64) -> (r: bool)
    requires
        total >= 1,
        compression >= 1,
        compression <= 0x10_0000,
        w >= 1,
        cum + w <= total,
    ensures
        r == within_capacity(cum as int, w as int, total as int, compression as int),
{
    proof {
        lemma_q_ppm_bound(cum as int, w as int, total as int);
    }
    let x: u128 = (2 * (cum as u128) + (w as u128)) * 500000;
    let q_ppm: u128 = x / (total as u128);
    proof {
        assert(q_ppm <= 1000000);
    }
    let a1: u128 = 4 * (total as u128);
    proof {
        assert((a1 as int) * (q_ppm as int) <= 0x4_0000_0000_0000_0000 * 1000000)
            by (nonlinear_arith)
            requires
                0 <= a1 <= 0x4_0000_0000_0000_0000,
                0 <= q_ppm <= 1000000,
        ;
    }
    let a2: u128 = a1 * q_ppm;
    proof {
        assert((a2 as int) * (1000000 - q_ppm as int) <= 0x4_0000_0000_0000_0000 * 1000000
            * 1000000) by (nonlinear_arith)
            requires
                0 <= a2 <= 0x4_0000_0000_0000_0000 * 1000000,
                0 <= 1000000 - (q_ppm as int) <= 1000000,
        ;
    }
    let a3: u128 = a2 * (1000000 - q_ppm);
    let cap: u128 = a3 / ((compression as u128) * 1000000000000) + 1;
    (w as u128) <= cap
}

/// One left-to-right clustering pass: `acc` is the cluster being grown, `cum`
/// the weight already flushed to its left.
pub open spec fn cluster_pass(
    acc: Centroid,
    rest: Seq<Centroid>,
    cum: int,
    total: int,
    compression: int,
) -> Seq<Centroid>
    decreases rest.len(),
{
    if rest.len() == 0 {
        seq![acc]
    } else {
        let b = rest[0];
        if within_capacity(cum, acc.weight + b.weight, total, compression) {
            cluster_pass(merged_centroid(acc, b), rest.drop_first(), cum, total, compression)
        } else {
            seq![acc] + cluster_pass(b, rest.drop_first(), cum + acc.weight, total, compression)
        }
    }
}

/// A clustering pass redistributes weight but neither creates nor destroys
/// any: the output weighs exactly the input plus the accumulator.
pub proof fn lemma_cluster_pass_sum(
    acc: Centroid,
    rest: Seq<Centroid>,
    cum: int,
    total: int,
    compression: int,
)
    requires
        acc.weight >= 1,
        weights_positive(rest),
        acc.weight + sum_weights(rest) <= u64::MAX,
    ensures
        sum_weights(cluster_pass(acc, rest, cum, total, compression)) == acc.weight + sum_weights(
            rest,
        ),
        cluster_pass(acc, rest, cum, total, compression).len() >= 1,
    decreases rest.len(),
{
    if rest.len() == 0 {
        lemma_sum_singleton(acc);
    } else {
        let b = rest[0];
        lemma_sum_first(rest);
        lemma_sum_nonneg(rest.drop_first());
        assert(weights_positive(rest.drop_first()));
        if within_capacity(cum, acc.weight + b.weight, total, compression) {
            let m = merged_centroid(acc, b);
            assert(m.weight == acc.weight + b.weight);
            lemma_cluster_pass_sum(m, rest.drop_first(), cum, total, compression);
        } else {
            lemma_cluster_pass_sum(b, rest.drop_first(), cum + acc.weight, total, compression);
            lemma_sum_concat(
                seq![acc],
                cluster_pass(b, rest.drop_first(), cum + acc.weight, total, compression),
            );
            lemma_sum_singleton(acc);
        }
    }
}

/// A clustering pass keeps the centroids ordered by mean; no output mean
/// falls below the accumulator's mean.
pub proof fn lemma_cluster_pass_sorted(
    acc: Centroid,
    rest: Seq<Centroid>,
    cum: int,
    total: int,
    compression: int,
)
    requires
        acc.weight >= 1,
        weights_positive(rest),
        acc.weight + sum_weights(rest) <= u64::MAX,
        mean_sorted(rest),
        forall|k: int| 0 <= k < rest.len() ==> acc.mean <= (#[trigger] rest[k]).mean,
    ensures
        mean_sorted(cluster_pass(acc, rest, cum, total, compression)),
        weights_positive(cluster_pass(acc, rest, cum, total, compression)),
        forall|k: int|
            0 <= k < cluster_pass(acc, rest, cum, total, compression).len() ==> acc.mean <= (
            #[trigger] cluster_pass(acc, rest, cum, total, compression)[k]).mean,
    decreases rest.len(),
{
    if rest.len() == 0 {
    } else {
        let b = rest[0];
        lemma_sum_first(rest);
        lemma_sum_nonneg(rest.drop_first());
        assert(weights_positive(rest.drop_first()));
        assert(mean_sorted(rest.drop_first()));
        if within_capacity(cum, acc.weight + b.weight, total, compression) {
            let m = merged_centroid(acc, b);
            lemma_merged_centroid(acc, b);
            assert(forall|k: int|
                0 <= k < rest.drop_first().len() ==> m.mean <= (
                #[trigger] rest.drop_first()[k]).mean);
            lemma_cluster_pass_sorted(m, rest.drop_first(), cum, total, compression);
        } else {
            lemma_cluster_pass_sorted(b, rest.drop_first(), cum + acc.weight, total, compression);
            let tail = cluster_pass(b, rest.drop_first(), cum + acc.weight, total, compression);
            let r = seq![acc] + tail;
            assert(forall|k: int| 0 <= k < tail.len() ==> acc.mean <= (#[trigger] tail[k]).mean);
            assert(forall|k: int| 0 <= k < r.len() ==> acc.mean <= (#[trigger] r[k]).mean);
            assert(mean_sorted(r));
        }
    }
}

/// One halving pass: adjacent pairs merge, a trailing odd centroid stays.
pub open spec fn pair_pass(s: Seq<Centroid>) -> Seq<Centroid>
    decreases s.len(),
{
    if s.len() <= 1 {
        s
    } else {
        seq![merged_centroid(s[0], s[1])] + pair_pass(s.skip(2))
    }
}

pub proof fn lemma_pair_pass_len(s: Seq<Centroid>)
    ensures
        pair_pass(s).len() == (s.len() + 1) / 2,
    decreases s.len(),
{
    if s.len() > 1 {
        lemma_pair_pass_len(s.skip(2));
    }
}

pub proof fn lemma_pair_pass_sum(s: Seq<Centroid>)
    requires
        weights_positive(s),
        sum_weights(s) <= u64::MAX,
    ensures
        sum_weights(pair_pass(s)) == sum_weights(s),
        weights_positive(pair_pass(s)),
    decreases s.len(),
{
    if s.len() > 1 {
        lemma_sum_first(s);
        lemma_sum_first(s.drop_first());
        assert(s.drop_first().drop_first() =~= s.skip(2));
        assert(weights_positive(s.skip(2)));
        lemma_sum_nonneg(s.skip(2));
        lemma_pair_pass_sum(s.skip(2));
        let m = merged_centroid(s[0], s[1]);
        assert(s.drop_first()[0] == s[1]);
        assert(m.weight == s[0].weight + s[1].weight);
        lemma_sum_concat(seq![m], pair_pass(s.skip(2)));
        lemma_sum_singleton(m);
    }
}

pub proof fn lemma_pair_pass_sorted(s: Seq<Centroid>)
    requires
        weights_positive(s),
        sum_weights(s) <= u64::MAX,
        mean_sorted(s),
    ensures
        mean_sorted(pair_pass(s)),
        forall|k: int|
            0 <= k < pair_pass(s).len() ==> s.len() > 0 && s[0].mean <= (
            #[trigger] pair_pass(s)[k]).mean,
    decreases s.len(),
{
    if s.len() > 1 {
        lemma_sum_first(s);
        lemma_sum_first(s.drop_first());
        assert(s.drop_first().drop_first() =~= s.skip(2));
        assert(s.drop_first()[0] == s[1]);
        assert(weights_positive(s.skip(2)));
        assert(mean_sorted(s.skip(2)));
        lemma_sum_nonneg(s.skip(2));
        lemma_pair_pass_sum(s.skip(2));
        lemma_pair_pass_sorted(s.skip(2));
        let m = merged_centroid(s[0], s[1]);
        lemma_merged_centroid(s[0], s[1]);
        let tail = pair_pass(s.skip(2));
        let r = seq![m] + tail;
        assert(forall|k: int|
            0 <= k < tail.len() ==> m.mean <= (#[trigger] tail[k]).mean) by {
            if s.len() >= 3 {
                assert(forall|k: int|
                    0 <= k < tail.len() ==> s.skip(2)[0].mean <= (#[trigger] tail[k]).mean);
            }
        }
        assert(mean_sorted(r));
        assert(forall|k: int| 0 <= k < r.len() ==> s[0].mean <= (#[trigger] r[k]).mean);
    }
}

/// The bound that a sketch's centroid count must respect.
pub open spec fn max_len(compression: int) -> int {
    6 * compression
}

/// Halve until the count respects the bound.
pub open spec fn hard_cap(s: Seq<Centroid>, compression: int) -> Seq<Centroid>
    decreases s.len(),
    via hard_cap_dec
{
    if s.len() <= max_len(compression) || s.len() <= 1 {
        s
    } else {
        hard_cap(pair_pass(s), compression)
    }
}

#[via_fn]
proof fn hard_cap_dec(s: Seq<Centroid>, compression: int) {
    if !(s.len() <= max_len(compression) || s.len() <= 1) {
        lemma_pair_pass_len(s);
    }
}

pub proof fn lemma_hard_cap(s: Seq<Centroid>, compression: int)
    requires
        weights_positive(s),
        sum_weights(s) <= u64::MAX,
        mean_sorted(s),
        compression >= 1,
    ensures
        sum_weights(hard_cap(s, compression)) == sum_weights(s),
        weights_positive(hard_cap(s, compression)),
        mean_sorted(hard_cap(s, compression)),
        hard_cap(s, compression).len() <= max_len(compression),
        hard_cap(s, compression).len() <= s.len(),
        hard_cap(s, compression).len() >= 1 <==> s.len() >= 1,
    decreases s.len(),
{
    if s.len() <= max_len(compression) || s.len() <= 1 {
    } else {
        lemma_pair_pass_len(s);
        lemma_pair_pass_sum(s);
        lemma_pair_pass_sorted(s);
        lemma_hard_cap(pair_pass(s), compression);
    }
}

/// Recompression: one rank-based clustering pass, then halving passes if the
/// count still exceeds the bound.
pub open spec fn compress_seq(s: Seq<Centroid>, compression: int) -> Seq<Centroid> {
    if s.len() == 0 {
        s
    } else {
        hard_cap(
            cluster_pass(s[0], s.drop_first(), 0, sum_weights(s), compression),
            compression,
        )
    }
}

/// Recompression preserves total weight and order and enforces the bound.
pub proof fn lemma_compress_seq(s: Seq<Centroid>, compression: int)
    requires
        weights_positive(s),
        sum_weights(s) <= u64::MAX,
        mean_sorted(s),
        compression >= 1,
    ensures
        sum_weights(compress_seq(s, compression)) == sum_weights(s),
        weights_positive(compress_seq(s, compression)),
        mean_sorted(compress_seq(s, compression)),
        compress_seq(s, compression).len() <= max_len(compression),
        compress_seq(s, compression).len() >= 1 <==> s.len() >= 1,
{
    if s.len() == 0 {
    } else {
        let total = sum_weights(s);
        lemma_sum_first(s);
        assert(weights_positive(s.drop_first()));
        assert(mean_sorted(s.drop_first()));
        lemma_cluster_pass_sum(s[0], s.drop_first(), 0, total, compression);
        lemma_cluster_pass_sorted(s[0], s.drop_first(), 0, total, compression);
        let p = cluster_pass(s[0], s.drop_first(), 0, total, compression);
        lemma_hard_cap(p, compression);
        lemma_sum_nonneg(hard_cap(p, compression));
    }
}

/// One halving pass, at run time.
fn pair_pass_vec(v: &Vec<Centroid>) -> (r: Vec<Centroid>)
    requires
        weights_positive(v@),
        sum_weights(v@) <= u64::MAX,
        mean_sorted(v@),
    ensures
        r@ == pair_pass(v@),
{
    let mut out: Vec<Centroid> = Vec::new();
    let mut i: usize = 0;
    proof {
        assert(v@.skip(0) =~= v@);
    }
    while i < v.len() && i + 1 < v.len()
        invariant
            i <= v.len(),
            weights_positive(v@),
            sum_weights(v@) <= u64::MAX,
            mean_sorted(v@),
            sum_weights(v@.skip(i as int)) <= u64::MAX,
            weights_positive(v@.skip(i as int)),
            out@ + pair_pass(v@.skip(i as int)) == pair_pass(v@),
        decreases v.len() - i,
    {
        let a = v[i];
        let b = v[i + 1];
        proof {
            let rest = v@.skip(i as int);
            assert(rest[0] == v@[i as int]);
            assert(rest[1] == v@[i as int + 1]);
            lemma_sum_first(rest);
            lemma_sum_first(rest.drop_first());
            assert(rest.drop_first().drop_first() =~= v@.skip(i as int + 2));
            lemma_sum_nonneg(v@.skip(i as int + 2));
            assert(a.weight + b.weight <= u64::MAX);
        }
        let m = merge_two(a, b);
        out.push(m);
        proof {
            let rest = v@.skip(i as int);
            assert(rest.skip(2) =~= v@.skip(i as int + 2));
            assert(pair_pass(rest) == seq![m] + pair_pass(v@.skip(i as int + 2)));
            assert(out@ + pair_pass(v@.skip(i as int + 2)) =~= pair_pass(v@));
        }
        i = i + 2;
    }
    if i < v.len() {
        let c = v[i];
        out.push(c);
        proof {
            let rest = v@.skip(i as int);
            assert(rest.len() == 1);
            assert(rest =~= seq![c]);
            assert(pair_pass(rest) == seq![c]);
            assert(out@ =~= pair_pass(v@));
        }
    } else {
        proof {
            assert(v@.skip(i as int).len() == 0);
            assert(pair_pass(v@.skip(i as int)) =~= Seq::<Centroid>::empty());
            assert(out@ =~= pair_pass(v@));
        }
    }
    out
}

/// Merges two adjacent clusters at run time.
fn merge_two(a: Centroid, b: Centroid) -> (r: Centroid)
    requires
        a.weight >= 1,
        b.weight >= 1,
        a.weight + b.weight <= u64::MAX,
        a.mean <= b.mean,
    ensures
        r == merged_centroid(a, b),
{
    proof {
        lemma_merged_centroid(a, b);
        assert((a.mean as int) * (a.weight as int) + (b.mean as int) * (b.weight as int) <= (
        b.mean as int) * ((a.weight as int) + (b.weight as int))) by (nonlinear_arith)
            requires
                a.mean <= b.mean,
                a.weight >= 1,
                b.weight >= 1,
        ;
        assert((b.mean as int) * ((a.weight as int) + (b.weight as int)) < 0x1_0000_0000_0000_0000
            * 0x1_0000_0000_0000_0000) by (nonlinear_arith)
            requires
                b.mean <= u64::MAX,
                a.weight + b.weight <= u64::MAX,
                a.weight + b.weight >= 0,
                b.mean >= 0,
        ;
        assert((a.mean as int) * (a.weight as int) >= 0) by (nonlinear_arith)
            requires
                a.mean >= 0,
                a.weight >= 0,
        ;
        assert((b.mean as int) * (b.weight as int) >= 0) by (nonlinear_arith)
            requires
                b.mean >= 0,
                b.weight >= 0,
        ;
    }
    let w: u64 = a.weight + b.weight;
    let num: u128 = (a.mean as u128) * (a.weight as u128) + (b.mean as u128) * (b.weight as u128);
    let mean: u64 = (num / (w as u128)) as u64;
    Centroid { mean, weight: w }
}

/// Recompresses a full centroid sequence at run time.
fn compress_vec(cents: &Vec<Centroid>, compression: u64) -> (r: Vec<Centroid>)
    requires
        mean_sorted(cents@),
        weights_positive(cents@),
        sum_weights(cents@) <= u64::MAX,
        1 <= compression <= 0x10_0000,
    ensures
        r@ == compress_seq(cents@, compression as int),
{
    if cents.len() == 0 {
        let r: Vec<Centroid> = Vec::new();
        assert(r@ =~= compress_seq(cents@, compression as int));
        return r;
    }
    // Total weight of the input.
    let mut total: u64 = 0;
    let mut j: usize = 0;
    proof {
        assert(cents@.take(0) =~= Seq::<Centroid>::empty());
    }
    while j < cents.len()
        invariant
            j <= cents.len(),
            weights_positive(cents@),
            sum_weights(cents@) <= u64::MAX,
            total == sum_weights(cents@.take(j as int)),
        decreases cents.len() - j,
    {
        proof {
            lemma_sum_take_step(cents@, j as int);
            lemma_sum_split(cents@, j as int + 1);
            lemma_sum_nonneg(cents@.skip(j as int + 1));
            assert(weights_positive(cents@.skip(j as int + 1)));
            lemma_sum_nonneg(cents@.take(j as int + 1));
            assert(weights_positive(cents@.take(j as int + 1)));
        }
        total = total + cents[j].weight;
        j = j + 1;
    }
    proof {
        assert(cents@.take(cents@.len() as int) =~= cents@);
    }
    let ghost gtotal = sum_weights(cents@);
    // Rank-based clustering pass.
    let mut out: Vec<Centroid> = Vec::new();
    let mut acc: Centroid = cents[0];
    let mut cum: u64 = 0;
    let mut i: usize = 1;
    let ghost whole = cluster_pass(cents@[0], cents@.skip(1), 0, gtotal, compression as int);
    proof {
        assert(cents@.skip(1) =~= cents@.drop_first());
        lemma_sum_first(cents@);
        assert(weights_positive(cents@.skip(1)));
        lemma_sum_nonneg(cents@.skip(1));
    }
    while i < cents.len()
        invariant
            1 <= i <= cents.len(),
            mean_sorted(cents@),
            weights_positive(cents@),
            sum_weights(cents@) <= u64::MAX,
            gtotal == sum_weights(cents@),
            total == gtotal,
            total >= 1,
            1 <= compression <= 0x10_0000,
            acc.weight >= 1,
            forall|k: int| i <= k < cents@.len() ==> acc.mean <= (#[trigger] cents@[k]).mean,
            cum + acc.weight + sum_weights(cents@.skip(i as int)) == gtotal,
            weights_positive(cents@.skip(i as int)),
            out@ + cluster_pass(acc, cents@.skip(i as int), cum as int, gtotal, compression as int)
                == whole,
        decreases cents.len() - i,
    {
        let b = cents[i];
        proof {
            let rest = cents@.skip(i as int);
            assert(rest[0] == cents@[i as int]);
            lemma_sum_first(rest);
            assert(rest.drop_first() =~= cents@.skip(i as int + 1));
            lemma_sum_nonneg(cents@.skip(i as int + 1));
            assert(weights_positive(cents@.skip(i as int + 1)));
            assert(acc.mean <= b.mean);
            assert(acc.weight + b.weight <= gtotal);
        }
        if within_capacity_x(cum, acc.weight + b.weight, total, compression) {
            let m = merge_two(acc, b);
            proof {
                lemma_merged_centroid(acc, b);
                assert(cluster_pass(
                    acc,
                    cents@.skip(i as int),
                    cum as int,
                    gtotal,
                    compression as int,
                ) == cluster_pass(m, cents@.skip(i as int + 1), cum as int, gtotal,
                compression as int));
            }
            acc = m;
        } else {
            proof {
                assert(cluster_pass(
                    acc,
                    cents@.skip(i as int),
                    cum as int,
                    gtotal,
                    compression as int,
                ) == seq![acc] + cluster_pass(
                    b,
                    cents@.skip(i as int + 1),
                    cum as int + acc.weight,
                    gtotal,
                    compression as int,
                ));
            }
            out.push(acc);
            cum = cum + acc.weight;
            proof {
                assert(out@ + cluster_pass(
                    b,
                    cents@.skip(i as int + 1),
                    cum as int,
                    gtotal,
                    compression as int,
                ) =~= whole);
            }
            acc = b;
        }
        i = i + 1;
    }
    proof {
        assert(cents@.skip(cents@.len() as int).len() == 0);
        assert(cluster_pass(
            acc,
            cents@.skip(cents@.len() as int),
            cum as int,
            gtotal,
            compression as int,
        ) == seq![acc]);
    }
    out.push(acc);
    proof {
        assert(out@ =~= whole);
        lemma_cluster_pass_sum(cents@[0], cents@.skip(1), 0, gtotal, compression as int);
        lemma_cluster_pass_sorted(cents@[0], cents@.skip(1), 0, gtotal, compression as int);
    }
    // Halving passes until the count respects the bound.
    while (out.len() as u64) > 6 * compression
        invariant
            weights_positive(out@),
            sum_weights(out@) == gtotal,
            gtotal <= u64::MAX,
            mean_sorted(out@),
            1 <= compression <= 0x10_0000,
            hard_cap(out@, compression as int) == hard_cap(whole, compression as int),
        decreases out.len(),
    {
        proof {
            lemma_pair_pass_sum(out@);
            lemma_pair_pass_sorted(out@);
            lemma_pair_pass_len(out@);
        }
        let next = pair_pass_vec(&out);
        out = next;
    }
    proof {
        assert(hard_cap(out@, compression as int) == out@);
    }
    out
}

/// Insertion of a fresh weight-one centroid, ordered by mean: the new
/// centroid lands before the first centroid whose mean exceeds the value.
pub open spec fn insert_cent(s: Seq<Centroid>, value: u64) -> Seq<Centroid>
    decreases s.len(),
{
    if s.len() == 0 {
        seq![Centroid { mean: value, weight: 1 }]
    } else if s[0].mean <= value {
        seq![s[0]] + insert_cent(s.drop_first(), value)
    } else {
        seq![Centroid { mean: value, weight: 1 }] + s
    }
}

pub proof fn lemma_insert_cent_at(s: Seq<Centroid>, value: u64, i: int)
    requires
        0 <= i <= s.len(),
        forall|k: int| 0 <= k < i ==> (#[trigger] s[k]).mean <= value,
        i < s.len() ==> s[i].mean > value,
    ensures
        insert_cent(s, value) == s.insert(i, Centroid { mean: value, weight: 1 }),
    decreases s.len(),
{
    let c = Centroid { mean: value, weight: 1 };
    if s.len() == 0 {
        assert(insert_cent(s, value) =~= s.insert(0, c));
    } else if i == 0 {
        assert(insert_cent(s, value) =~= s.insert(0, c));
    } else {
        lemma_insert_cent_at(s.drop_first(), value, i - 1);
        assert(seq![s[0]] + s.drop_first().insert(i - 1, c) =~= s.insert(i, c));
    }
}

pub proof fn lemma_insert_cent_props(s: Seq<Centroid>, value: u64)
    requires
        mean_sorted(s),
        weights_positive(s),
    ensures
        sum_weights(insert_cent(s, value)) == sum_weights(s) + 1,
        weights_positive(insert_cent(s, value)),
        mean_sorted(insert_cent(s, value)),
        insert_cent(s, value).len() == s.len() + 1,
    decreases s.len(),
{
    let c = Centroid { mean: value, weight: 1 };
    if s.len() == 0 {
        lemma_sum_singleton(c);
    } else if s[0].mean <= value {
        assert(mean_sorted(s.drop_first()));
        assert(weights_positive(s.drop_first()));
        lemma_insert_cent_props(s.drop_first(), value);
        let tail = insert_cent(s.drop_first(), value);
        lemma_sum_concat(seq![s[0]], tail);
        lemma_sum_singleton(s[0]);
        lemma_sum_first(s);
        // Every mean in the inserted tail is at least s[0].mean.
        assert forall|k: int| 0 <= k < tail.len() implies s[0].mean <= (#[trigger] tail[k]).mean by {
            lemma_insert_cent_means(s.drop_first(), value, s[0].mean, k);
        }
        assert(mean_sorted(seq![s[0]] + tail));
    } else {
        lemma_sum_concat(seq![c], s);
        lemma_sum_singleton(c);
        assert(mean_sorted(seq![c] + s));
    }
}

/// Inserting into a sequence whose means all reach `lo` keeps that floor,
/// provided the value itself reaches it.
proof fn lemma_insert_cent_means(s: Seq<Centroid>, value: u64, lo: u64, k: int)
    requires
        forall|j: int| 0 <= j < s.len() ==> lo <= (#[trigger] s[j]).mean,
        lo <= value,
        0 <= k < insert_cent(s, value).len(),
    ensures
        lo <= insert_cent(s, value)[k].mean,
    decreases s.len(),
{
    if s.len() == 0 {
    } else if s[0].mean <= value {
        if k > 0 {
            lemma_insert_cent_means(s.drop_first(), value, lo, k - 1);
        }
    } else {
    }
}

/// The streaming quantile sketch.
pub struct Sketch {
    /// Bounds the centroid count: the sketch never holds more than
    /// `6 * compression` centroids.
    pub compression: u64,
    /// Total weight: the number of samples merged into the sketch.
    pub total: u64,
    /// Mean-ordered centroids.
    pub centroids: Vec<Centroid>,
}

impl Sketch {
    /// The structural invariant of a sketch.
    pub open spec fn wf(&self) -> bool {
        &&& 1 <= self.compression <= 0x10_0000
        &&& mean_sorted(self.centroids@)
        &&& weights_positive(self.centroids@)
        &&& sum_weights(self.centroids@) == self.total
        &&& self.centroids@.len() <= max_len(self.compression as int)
    }

    /// An empty sketch with the given compression factor.
    pub fn new(compression: u64) -> (r: Sketch)
        requires
            1 <= compression <= 0x10_0000,
        ensures
            r.wf(),
            r.compression == compression,
            r.total == 0,
            r.centroids@ == Seq::<Centroid>::empty(),
    {
        let r = Sketch { compression, total: 0, centroids: Vec::new() };
        proof {
            assert(r.centroids@ =~= Seq::<Centroid>::empty());
        }
        r
    }

    /// The centroid sequence after one sample lands: sorted insertion,
    /// followed by recompression if the count outgrew the bound.
    pub open spec fn spec_add(self, value: u64) -> Seq<Centroid> {
        let ins = insert_cent(self.centroids@, value);
        if ins.len() > max_len(self.compression as int) {
            compress_seq(ins, self.compression as int)
        } else {
            ins
        }
    }

    /// Incorporates one sample.
    pub fn add(&mut self, value: u64)
        requires
            old(self).wf(),
            old(self).total < u64::MAX,
        ensures
            final(self).wf(),
            final(self).compression == old(self).compression,
            final(self).total == old(self).total + 1,
            final(self).centroids@ == old(self).spec_add(value),
    {
        let mut i: usize = 0;
        while i < self.centroids.len() && self.centroids[i].mean <= value
            invariant
                i <= self.centroids.len(),
                forall|k: int| 0 <= k < i ==> (#[trigger] self.centroids@[k]).mean <= value,
                *self == *old(self),
            decreases self.centroids.len() - i,
        {
            i = i + 1;
        }
        proof {
            lemma_insert_cent_at(self.centroids@, value, i as int);
            lemma_insert_cent_props(self.centroids@, value);
        }
        self.centroids.insert(i, Centroid { mean: value, weight: 1 });
        self.total = self.total + 1;
        if (self.centroids.len() as u64) > 6 * self.compression {
            proof {
                lemma_compress_seq(self.centroids@, self.compression as int);
            }
            let packed = compress_vec(&self.centroids, self.compression);
            self.centroids = packed;
        }
    }

    /// Total weight: the number of samples this sketch has absorbed, used as
    /// the reported sample count.
    pub fn total_weight(&self) -> (r: u64)
        ensures
            r == self.total,
    {
        self.total
    }

    /// A point-in-time copy, for snapshots.
    pub fn duplicate(&self) -> (r: Sketch)
        ensures
            r.compression == self.compression,
            r.total == self.total,
            r.centroids@ == self.centroids@,
    {
        let mut cs: Vec<Centroid> = Vec::new();
        let mut i: usize = 0;
        proof {
            assert(cs@ =~= self.centroids@.take(0));
        }
        while i < self.centroids.len()
            invariant
                i <= self.centroids.len(),
                cs@ == self.centroids@.take(i as int),
            decreases self.centroids.len() - i,
        {
            cs.push(self.centroids[i]);
            proof {
                assert(cs@ =~= self.centroids@.take(i as int + 1));
            }
            i = i + 1;
        }
        proof {
            assert(self.centroids@.take(self.centroids@.len() as int) =~= self.centroids@);
        }
        Sketch { compression: self.compression, total: self.total, centroids: cs }
    }
}

/// Linear interpolation between the means of two straddling clusters,
/// weighted by the target rank's position between their midpoints.
pub open spec fn interp(m0: int, m1: int, p0: int, p1: int, t: int) -> int {
    m0 + (m1 - m0) * (t - p0) / (p1 - p0)
}

/// The interpolated value lies between the two means.
pub proof fn lemma_interp_bounds(m0: int, m1: int, p0: int, p1: int, t: int)
    requires
        m0 <= m1,
        p0 < t < p1,
    ensures
        m0 <= interp(m0, m1, p0, p1, t) <= m1,
{
    let d = (m1 - m0) * (t - p0);
    assert(d >= 0) by (nonlinear_arith)
        requires
            m1 >= m0,
            t > p0,
            d == (m1 - m0) * (t - p0),
    ;
    lemma_div_pos_is_pos(d, p1 - p0);
    assert(d <= (m1 - m0) * (p1 - p0)) by (nonlinear_arith)
        requires
            0 <= t - p0 <= p1 - p0,
            m1 - m0 >= 0,
            d == (m1 - m0) * (t - p0),
    ;
    lemma_div_is_ordered(d, (m1 - m0) * (p1 - p0), p1 - p0);
    lemma_div_by_multiple(m1 - m0, p1 - p0);
}

/// Walks the centroids left to right, `cum` being the weight to the left of
/// the first one, until the target rank `t` (in half weight units) falls at
/// or before a cluster midpoint; interpolates between straddling midpoints.
pub open spec fn quantile_walk(s: Seq<Centroid>, cum: int, t: int) -> int
    decreases s.len(),
{
    if s.len() == 0 {
        0
    } else if s.len() == 1 {
        s[0].mean as int
    } else {
        let p0 = 2 * cum + s[0].weight;
        let p1 = 2 * (cum + s[0].weight) + s[1].weight;
        if t <= p0 {
            s[0].mean as int
        } else if t < p1 {
            interp(s[0].mean as int, s[1].mean as int, p0, p1, t)
        } else {
            quantile_walk(s.drop_first(), cum + s[0].weight, t)
        }
    }
}

/// The target rank for quantile `q_permille/1000`, in half weight units.
pub open spec fn quantile_target(total: int, q_permille: int) -> int {
    2 * q_permille * total / 1000
}

/// The estimate for quantile `q_permille/1000` over a centroid sequence of
/// the given total weight.
pub open spec fn estimate_spec(s: Seq<Centroid>, total: int, q_permille: int) -> int {
    quantile_walk(s, 0, quantile_target(total, q_permille))
}

/// A quantile estimate never leaves the range spanned by the centroid means.
pub proof fn lemma_quantile_walk_bounds(s: Seq<Centroid>, cum: int, t: int)
    requires
        mean_sorted(s),
        weights_positive(s),
        s.len() >= 1,
    ensures
        s[0].mean <= quantile_walk(s, cum, t) <= s[s.len() - 1].mean,
    decreases s.len(),
{
    if s.len() == 1 {
    } else {
        let p0 = 2 * cum + s[0].weight;
        let p1 = 2 * (cum + s[0].weight) + s[1].weight;
        if t <= p0 {
        } else if t < p1 {
            lemma_interp_bounds(s[0].mean as int, s[1].mean as int, p0, p1, t);
        } else {
            assert(mean_sorted(s.drop_first()));
            assert(weights_positive(s.drop_first()));
            lemma_quantile_walk_bounds(s.drop_first(), cum + s[0].weight, t);
            assert(s.drop_first()[0] == s[1]);
            assert(s.drop_first()[s.drop_first().len() - 1] == s[s.len() - 1]);
        }
    }
}

impl Sketch {
    /// The sketch's estimate for the quantile `q_permille/1000`, `None` when
    /// the sketch holds no data.
    pub open spec fn spec_estimate(self, q_permille: int) -> Option<u64> {
        if self.total == 0 {
            None
        } else {
            Some(estimate_spec(self.centroids@, self.total as int, q_permille) as u64)
        }
    }

    /// Estimates the value at cumulative rank `q_permille/1000` by locating
    /// the two clusters whose midpoints straddle the target rank and
    /// interpolating linearly between their means. Returns `None` on a sketch
    /// with zero total weight: no data, not an error.
    pub fn estimate_quantile(&self, q_permille: u32) -> (r: Option<u64>)
        requires
            self.wf(),
            q_permille <= 1000,
        ensures
            r == self.spec_estimate(q_permille as int),
            r is Some <==> self.total > 0,
    {
        let s = &self.centroids;
        let n = s.len();
        if n == 0 {
            return None;
        }
        proof {
            lemma_sum_nonneg(s@);
        }
        proof {
            assert((2 * (q_permille as int)) * (self.total as int) <= 2000
                * 0xFFFF_FFFF_FFFF_FFFF) by (nonlinear_arith)
                requires
                    0 <= q_permille <= 1000,
                    0 <= self.total <= 0xFFFF_FFFF_FFFF_FFFF,
            ;
        }
        let t: u128 = 2 * (q_permille as u128) * (self.total as u128) / 1000;
        let ghost gt = quantile_target(self.total as int, q_permille as int);
        proof {
            assert(t == gt);
            assert(s@.skip(0) =~= s@);
            assert(s@.take(0) =~= Seq::<Centroid>::empty());
        }
        let mut i: usize = 0;
        let mut cum: u64 = 0;
        while i + 1 < n
            invariant
                s@ == self.centroids@,
                n == s@.len(),
                1 <= n,
                i < n,
                self.wf(),
                q_permille <= 1000,
                t == gt,
                gt == quantile_target(self.total as int, q_permille as int),
                cum == sum_weights(s@.take(i as int)),
                cum + sum_weights(s@.skip(i as int)) == self.total,
                weights_positive(s@.skip(i as int)),
                quantile_walk(s@.skip(i as int), cum as int, gt) == quantile_walk(s@, 0, gt),
            decreases n - i,
        {
            let c0 = s[i];
            let c1 = s[i + 1];
            proof {
                let rest = s@.skip(i as int);
                assert(rest[0] == s@[i as int]);
                assert(rest[1] == s@[i as int + 1]);
                lemma_sum_first(rest);
                assert(rest.drop_first() =~= s@.skip(i as int + 1));
                assert(weights_positive(s@.skip(i as int + 1)));
                lemma_sum_nonneg(s@.skip(i as int + 1));
                assert(cum + c0.weight <= self.total);
            }
            let p0: u128 = 2 * (cum as u128) + (c0.weight as u128);
            let p1: u128 = 2 * ((cum as u128) + (c0.weight as u128)) + (c1.weight as u128);
            if t <= p0 {
                proof {
                    let rest = s@.skip(i as int);
                    lemma_sum_nonneg(rest);
                    assert(self.total > 0);
                    assert(quantile_walk(rest, cum as int, gt) == c0.mean as int);
                }
                return Some(c0.mean);
            }
            if t < p1 {
                proof {
                    assert(s@[i as int].mean <= s@[i as int + 1].mean);
                    let rest0 = s@.skip(i as int);
                    lemma_sum_nonneg(rest0);
                    assert(self.total > 0);
                    lemma_interp_bounds(
                        c0.mean as int,
                        c1.mean as int,
                        p0 as int,
                        p1 as int,
                        gt,
                    );
                    lemma_sum_first(s@.skip(i as int + 1));
                    assert(s@.skip(i as int + 1).drop_first() =~= s@.skip(i as int + 2));
                    assert(weights_positive(s@.skip(i as int + 2)));
                    lemma_sum_nonneg(s@.skip(i as int + 2));
                    assert(c0.weight + c1.weight <= u64::MAX);
                    assert((c1.mean as int - c0.mean as int) * (gt - p0 as int) <= (
                    0x1_0000_0000_0000_0000 - 1) * (0x1_0000_0000_0000_0000 - 1))
                        by (nonlinear_arith)
                        requires
                            0 <= c1.mean as int - c0.mean as int <= 0x1_0000_0000_0000_0000 - 1,
                            0 <= gt - p0 as int <= 0x1_0000_0000_0000_0000 - 1,
                    ;
                }
                let num: u128 = ((c1.mean - c0.mean) as u128) * (t - p0);
                proof {
                    assert(num == (c1.mean as int - c0.mean as int) * (gt - p0 as int));
                    assert((c1.mean as int - c0.mean as int) * (gt - p0 as int) <= (c1.mean as int
                        - c0.mean as int) * (p1 as int - p0 as int)) by (nonlinear_arith)
                        requires
                            0 <= gt - (p0 as int) <= (p1 as int) - (p0 as int),
                            c1.mean as int - c0.mean as int >= 0,
                    ;
                }
                let est: u64 = ((c0.mean as u128) + num / (p1 - p0)) as u64;
                proof {
                    assert(est == interp(c0.mean as int, c1.mean as int, p0 as int, p1 as int, gt));
                    let rest = s@.skip(i as int);
                    assert(quantile_walk(rest, cum as int, gt) == interp(
                        c0.mean as int,
                        c1.mean as int,
                        p0 as int,
                        p1 as int,
                        gt,
                    ));
                }
                return Some(est);
            }
            proof {
                lemma_sum_take_step(s@, i as int);
                let rest = s@.skip(i as int);
                assert(quantile_walk(rest, cum as int, gt) == quantile_walk(
                    s@.skip(i as int + 1),
                    cum as int + c0.weight,
                    gt,
                ));
            }
            cum = cum + c0.weight;
            i = i + 1;
        }
        proof {
            assert(s@.skip(i as int).len() == 1);
            assert(s@.skip(i as int)[0] == s@[i as int]);
            lemma_sum_nonneg(s@.skip(i as int));
            assert(self.total > 0);
        }
        Some(s[i].mean)
    }
}

/// All centroids of a sequence of sketches, in sequence order.
pub open spec fn concat_cents(ds: Seq<Sketch>) -> Seq<Centroid>
    decreases ds.len(),
{
    if ds.len() == 0 {
        Seq::empty()
    } else {
        concat_cents(ds.drop_last()) + ds.last().centroids@
    }
}

/// Combined total weight of a sequence of sketches.
pub open spec fn totals_sum(ds: Seq<Sketch>) -> int
    decreases ds.len(),
{
    if ds.len() == 0 {
        0
    } else {
        totals_sum(ds.drop_last()) + ds.last().total
    }
}

/// The compression factor a merge runs under: the largest input factor, at
/// least the default of 100.
pub open spec fn merged_compression(ds: Seq<Sketch>) -> int
    decreases ds.len(),
{
    if ds.len() == 0 {
        100
    } else {
        let rest = merged_compression(ds.drop_last());
        if ds.last().compression >= rest {
            ds.last().compression as int
        } else {
            rest
        }
    }
}

/// The centroids of the sketch that a merge produces: the union of all input
/// centroids, canonically ordered, then recompressed.
pub open spec fn merged_cents(ds: Seq<Sketch>) -> Seq<Centroid> {
    compress_seq(concat_cents(ds).sort_by(cent_leq()), merged_compression(ds))
}

pub proof fn lemma_totals_nonneg(ds: Seq<Sketch>)
    ensures
        totals_sum(ds) >= 0,
    decreases ds.len(),
{
    if ds.len() > 0 {
        lemma_totals_nonneg(ds.drop_last());
    }
}

pub proof fn lemma_totals_take_step(ds: Seq<Sketch>, i: int)
    requires
        0 <= i < ds.len(),
    ensures
        totals_sum(ds.take(i + 1)) == totals_sum(ds.take(i)) + ds[i].total,
{
    assert(ds.take(i + 1).drop_last() =~= ds.take(i));
    assert(ds.take(i + 1).last() == ds[i]);
}

pub proof fn lemma_totals_split(ds: Seq<Sketch>, i: int)
    requires
        0 <= i <= ds.len(),
    ensures
        totals_sum(ds) == totals_sum(ds.take(i)) + totals_sum(ds.skip(i)),
    decreases ds.len() - i,
{
    if i == ds.len() {
        assert(ds.take(i) =~= ds);
        assert(ds.skip(i).len() == 0);
    } else {
        lemma_totals_split(ds, i + 1);
        lemma_totals_take_step(ds, i);
        assert(ds.skip(i)[0] == ds[i]);
        lemma_totals_first(ds.skip(i));
        assert(ds.skip(i).drop_first() =~= ds.skip(i + 1));
    }
}

proof fn lemma_totals_first(ds: Seq<Sketch>)
    requires
        ds.len() >= 1,
    ensures
        totals_sum(ds) == ds[0].total + totals_sum(ds.drop_first()),
    decreases ds.len(),
{
    if ds.len() == 1 {
        assert(ds.drop_last() =~= Seq::<Sketch>::empty());
        assert(ds.drop_first() =~= Seq::<Sketch>::empty());
    } else {
        lemma_totals_first(ds.drop_last());
        assert(ds.drop_last().drop_first() =~= ds.drop_first().drop_last());
        assert(ds.drop_last()[0] == ds[0]);
        assert(ds.drop_first().last() == ds.last());
    }
}

pub proof fn lemma_concat_cents_take_step(ds: Seq<Sketch>, i: int)
    requires
        0 <= i < ds.len(),
    ensures
        concat_cents(ds.take(i + 1)) == concat_cents(ds.take(i)) + ds[i].centroids@,
{
    assert(ds.take(i + 1).drop_last() =~= ds.take(i));
    assert(ds.take(i + 1).last() == ds[i]);
}

pub proof fn lemma_merged_compression_take_step(ds: Seq<Sketch>, i: int)
    requires
        0 <= i < ds.len(),
    ensures
        merged_compression(ds.take(i + 1)) == if ds[i].compression >= merged_compression(
            ds.take(i),
        ) {
            ds[i].compression as int
        } else {
            merged_compression(ds.take(i))
        },
{
    assert(ds.take(i + 1).drop_last() =~= ds.take(i));
    assert(ds.take(i + 1).last() == ds[i]);
}

/// Two sequences with the same centroid multiset have the same total weight.
pub proof fn lemma_sum_permutation(s1: Seq<Centroid>, s2: Seq<Centroid>)
    requires
        s1.to_multiset() == s2.to_multiset(),
    ensures
        sum_weights(s1) == sum_weights(s2),
    decreases s1.len(),
{
    broadcast use vstd::multiset::group_multiset_axioms;
    broadcast use vstd::seq_lib::group_to_multiset_ensures;

    assert(s1.len() == s1.to_multiset().len());
    assert(s2.len() == s2.to_multiset().len());
    if s1.len() == 0 {
    } else {
        let x = s1.last();
        let n1 = s1.len() - 1;
        assert(s1.to_multiset().contains(x));
        assert(s2.to_multiset().contains(x));
        assert(s2.contains(x));
        let j = choose|j: int| 0 <= j < s2.len() && s2[j] == x;
        assert(s1.remove(n1).to_multiset() =~= s1.to_multiset().remove(x));
        assert(s2.remove(j).to_multiset() =~= s2.to_multiset().remove(x));
        assert(s1.remove(n1) =~= s1.drop_last());
        lemma_sum_permutation(s1.drop_last(), s2.remove(j));
        assert(s2 =~= s2.take(j) + (seq![x] + s2.skip(j + 1)));
        assert(s2.remove(j) =~= s2.take(j) + s2.skip(j + 1));
        lemma_sum_concat(s2.take(j), seq![x] + s2.skip(j + 1));
        lemma_sum_concat(seq![x], s2.skip(j + 1));
        lemma_sum_concat(s2.take(j), s2.skip(j + 1));
        lemma_sum_singleton(x);
    }
}

/// Elements of two multiset-equal sequences satisfy the same membership
/// facts; in particular positive weights carry over.
pub proof fn lemma_weights_positive_permutation(s1: Seq<Centroid>, s2: Seq<Centroid>)
    requires
        s1.to_multiset() == s2.to_multiset(),
        weights_positive(s1),
    ensures
        weights_positive(s2),
{
    broadcast use vstd::multiset::group_multiset_axioms;
    broadcast use vstd::seq_lib::group_to_multiset_ensures;

    assert forall|k: int| 0 <= k < s2.len() implies (#[trigger] s2[k]).weight >= 1 by {
        let x = s2[k];
        assert(s2.contains(x));
        assert(s2.to_multiset().contains(x));
        assert(s1.to_multiset().contains(x));
        assert(s1.contains(x));
        let j = choose|j: int| 0 <= j < s1.len() && s1[j] == x;
        assert(s1[j].weight >= 1);
    }
}

/// Runtime comparison in the canonical centroid order.
fn cent_le_x(a: &Centroid, b: &Centroid) -> (r: bool)
    ensures
        r == cent_le(*a, *b),
{
    a.mean < b.mean || (a.mean == b.mean && a.weight <= b.weight)
}

/// Sorts centroids into the canonical order; the result is the canonical
/// arrangement of the input's multiset.
fn sort_cents(v: Vec<Centroid>) -> (r: Vec<Centroid>)
    ensures
        r@ == v@.sort_by(cent_leq()),
        vstd::relations::sorted_by(r@, cent_leq()),
        r@.to_multiset() == v@.to_multiset(),
{
    broadcast use vstd::seq_lib::group_to_multiset_ensures;

    let mut out: Vec<Centroid> = Vec::new();
    let mut i: usize = 0;
    proof {
        lemma_cent_leq_total_ordering();
        assert(v@.take(0) =~= Seq::<Centroid>::empty());
        assert(out@.to_multiset() =~= v@.take(0).to_multiset());
    }
    while i < v.len()
        invariant
            i <= v.len(),
            vstd::relations::sorted_by(out@, cent_leq()),
            out@.to_multiset() == v@.take(i as int).to_multiset(),
        decreases v.len() - i,
    {
        let x = v[i];
        let mut j: usize = 0;
        while j < out.len() && cent_le_x(&out[j], &x)
            invariant
                j <= out@.len(),
                forall|k: int| 0 <= k < j ==> cent_le(#[trigger] out@[k], x),
                vstd::relations::sorted_by(out@, cent_leq()),
                out@.to_multiset() == v@.take(i as int).to_multiset(),
            decreases out@.len() - j,
        {
            j = j + 1;
        }
        proof {
            lemma_cent_leq_total_ordering();
            vstd::seq_lib::to_multiset_insert(out@, j as int, x);
            assert(v@.take(i as int + 1) =~= v@.take(i as int).push(v@[i as int]));
            let ins = out@.insert(j as int, x);
            assert forall|p: int, q: int| 0 <= p < q < ins.len() implies cent_le(
                #[trigger] ins[p],
                #[trigger] ins[q],
            ) by {
                let leqr = cent_leq();
                if p < j && q < j {
                    assert(ins[p] == out@[p] && ins[q] == out@[q]);
                    assert(leqr(out@[p], out@[q]));
                } else if p < j && q == j {
                    assert(ins[p] == out@[p] && ins[q] == x);
                } else if p < j && q > j {
                    assert(ins[p] == out@[p] && ins[q] == out@[q - 1]);
                    assert(leqr(out@[p], out@[q - 1]));
                } else if p == j && q > j {
                    assert(ins[p] == x && ins[q] == out@[q - 1]);
                    // x goes before out[j], which precedes out[q-1].
                    if j < out@.len() {
                        assert(!cent_le(out@[j as int], x));
                        assert(cent_le(x, out@[j as int]));
                        if q - 1 > j {
                            assert(leqr(out@[j as int], out@[q - 1]));
                        }
                    }
                } else {
                    assert(p > j && q > j);
                    assert(ins[p] == out@[p - 1] && ins[q] == out@[q - 1]);
                    assert(leqr(out@[p - 1], out@[q - 1]));
                }
            }
        }
        out.insert(j, x);
        proof {
            vstd::seq_lib::to_multiset_build(v@.take(i as int), x);
        }
        i = i + 1;
    }
    proof {
        lemma_cent_leq_total_ordering();
        assert(v@.take(v@.len() as int) =~= v@);
        v@.lemma_sort_by_ensures(cent_leq());
        vstd::seq_lib::lemma_sorted_unique(out@, v@.sort_by(cent_leq()), cent_leq());
        assert(out@ == v@.sort_by(cent_leq()));
    }
    out
}

/// Merges a set of sketches into one: the combined sketch weighs exactly the
/// sum of the inputs and holds the recompressed union of their centroids.
/// Merging a sketch with itself duplicates weight: the operation is not
/// idempotent, so callers must not merge the same record twice.
pub fn merge_digests(digests: Vec<Sketch>) -> (r: Sketch)
    requires
        forall|k: int| 0 <= k < digests@.len() ==> (#[trigger] digests@[k]).wf(),
        totals_sum(digests@) <= u64::MAX,
    ensures
        r.wf(),
        r.total == totals_sum(digests@),
        r.compression == merged_compression(digests@),
        r.centroids@ == merged_cents(digests@),
{
    let mut all: Vec<Centroid> = Vec::new();
    let mut total: u64 = 0;
    let mut compression: u64 = 100;
    let mut i: usize = 0;
    proof {
        assert(digests@.take(0) =~= Seq::<Sketch>::empty());
        assert(all@ =~= concat_cents(digests@.take(0)));
    }
    while i < digests.len()
        invariant
            i <= digests@.len(),
            forall|k: int| 0 <= k < digests@.len() ==> (#[trigger] digests@[k]).wf(),
            totals_sum(digests@) <= u64::MAX,
            all@ == concat_cents(digests@.take(i as int)),
            total == totals_sum(digests@.take(i as int)),
            compression == merged_compression(digests@.take(i as int)),
            100 <= compression <= 0x10_0000,
            sum_weights(all@) == total,
            weights_positive(all@),
        decreases digests@.len() - i,
    {
        let d = &digests[i];
        proof {
            lemma_totals_take_step(digests@, i as int);
            lemma_totals_split(digests@, i as int + 1);
            lemma_totals_nonneg(digests@.skip(i as int + 1));
            lemma_concat_cents_take_step(digests@, i as int);
            lemma_merged_compression_take_step(digests@, i as int);
            lemma_sum_concat(concat_cents(digests@.take(i as int)), d.centroids@);
        }
        let mut j: usize = 0;
        let ghost base = all@;
        while j < d.centroids.len()
            invariant
                j <= d.centroids@.len(),
                all@ == base + d.centroids@.take(j as int),
            decreases d.centroids@.len() - j,
        {
            let c = d.centroids[j];
            all.push(c);
            proof {
                assert(base + d.centroids@.take(j as int + 1) =~= (base + d.centroids@.take(
                    j as int,
                )).push(c));
            }
            j = j + 1;
        }
        proof {
            assert(d.centroids@.take(d.centroids@.len() as int) =~= d.centroids@);
            assert(all@ =~= concat_cents(digests@.take(i as int + 1)));
        }
        total = total + d.total;
        if d.compression > compression {
            let c = d.compression;
            compression = c;
        }
        i = i + 1;
    }
    proof {
        assert(digests@.take(digests@.len() as int) =~= digests@);
    }
    let sorted = sort_cents(all);
    proof {
        lemma_sum_permutation(sorted@, concat_cents(digests@));
        lemma_weights_positive_permutation(concat_cents(digests@), sorted@);
        assert forall|p: int, q: int|
            0 <= p < q < sorted@.len() implies (#[trigger] sorted@[p]).mean <= (
        #[trigger] sorted@[q]).mean by {
            let leqr = cent_leq();
            assert(leqr(sorted@[p], sorted@[q]));
        }
        lemma_compress_seq(sorted@, compression as int);
    }
    let packed = compress_vec(&sorted, compression);
    Sketch { compression, total, centroids: packed }
}

/// Unfolds the merge model functions on a two-sketch sequence.
proof fn lemma_pair_unfold(a: Sketch, b: Sketch)
    ensures
        concat_cents(seq![a, b]) == a.centroids@ + b.centroids@,
        totals_sum(seq![a, b]) == a.total + b.total,
        merged_compression(seq![a, b]) == pair_compression(a, b),
{
    let e = Seq::<Sketch>::empty();
    let sa = seq![a];
    let sab = seq![a, b];
    assert(sab.drop_last() =~= sa);
    assert(sa.drop_last() =~= e);
    assert(sab.last() == b);
    assert(sa.last() == a);
    assert(concat_cents(e) == Seq::<Centroid>::empty());
    assert(concat_cents(sa) == concat_cents(e) + a.centroids@);
    assert(concat_cents(sab) == concat_cents(sa) + b.centroids@);
    assert(concat_cents(sab) =~= a.centroids@ + b.centroids@);
    assert(totals_sum(e) == 0);
    assert(totals_sum(sa) == a.total);
    assert(totals_sum(sab) == a.total + b.total);
    assert(merged_compression(e) == 100);
    assert(merged_compression(sa) == if a.compression >= 100 {
        a.compression as int
    } else {
        100
    });
    assert(merged_compression(sab) == pair_compression(a, b));
}

/// The compression factor of a two-sketch merge: the larger of the two
/// inputs' factors, at least the default of 100.
pub open spec fn pair_compression(a: Sketch, b: Sketch) -> int {
    let ma = if a.compression >= 100 {
        a.compression as int
    } else {
        100
    };
    if b.compression >= ma {
        b.compression as int
    } else {
        ma
    }
}

/// Merging is weight-additive: the merge of two sketches weighs exactly
/// the sum of their total weights.
pub proof fn lemma_merge_weight_additive(a: Sketch, b: Sketch)
    ensures
        totals_sum(seq![a, b]) == a.total + b.total,
{
    lemma_pair_unfold(a, b);
}

/// Merging is commutative: the merge of two sketches is one and the same
/// sketch whichever order they are given in, so every quantile estimate of
/// the two merges agrees exactly.
pub proof fn lemma_merge_commutative(a: Sketch, b: Sketch)
    ensures
        merged_cents(seq![a, b]) == merged_cents(seq![b, a]),
        totals_sum(seq![a, b]) == totals_sum(seq![b, a]),
        merged_compression(seq![a, b]) == merged_compression(seq![b, a]),
{
    broadcast use vstd::multiset::group_multiset_axioms;

    lemma_cent_leq_total_ordering();
    lemma_pair_unfold(a, b);
    lemma_pair_unfold(b, a);
    let cat_ab = a.centroids@ + b.centroids@;
    let cat_ba = b.centroids@ + a.centroids@;
    cat_ab.lemma_sort_by_ensures(cent_leq());
    cat_ba.lemma_sort_by_ensures(cent_leq());
    vstd::seq_lib::lemma_multiset_commutative(a.centroids@, b.centroids@);
    vstd::seq_lib::lemma_multiset_commutative(b.centroids@, a.centroids@);
    assert(cat_ab.to_multiset() =~= cat_ba.to_multiset());
    vstd::seq_lib::lemma_sorted_unique(
        cat_ab.sort_by(cent_leq()),
        cat_ba.sort_by(cent_leq()),
        cent_leq(),
    );
}

} // verus!
