//! The query service: merge the matching snapshots, evaluate the standard
//! percentile set, and format the answer.
//!
//! A query holds no state of its own: it scans the table, merges whatever
//! snapshots match, and reports p50/p75/p90/p95/p99 in milliseconds at
//! three decimal places. Zero matching data — no records, or only empty
//! sketches — answers with a zero sample count and an empty quantile
//! mapping, not an error.

use vstd::prelude::*;
use vstd::string::StringExecFns;
use crate::codec::{parse_u64_at, parsed_cents, blob_ok};
use crate::digits::{dec_fixed, dec_of, push_dec_fixed, u64_to_dec};
use crate::service::{decoded_match, CodecError, Service};
use crate::sketch::{
    cent_leq,
    compress_seq,
    concat_cents,
    estimate_spec,
    lemma_quantile_walk_bounds,
    lemma_sum_nonneg,
    lemma_totals_nonneg,
    lemma_totals_split,
    lemma_totals_take_step,
    merged_compression,
    merge_digests,
    quantile_target,
    sum_weights,
    totals_sum,
    Centroid,
    Sketch,
};
use crate::store::{matching_blobs, DigestStore};

verus! {

/// Why a quantile query failed.
#[derive(Clone, Copy, PartialEq, Eq, Structural, Debug)]
pub enum QueryError {
    /// A stored snapshot did not deserialize; the whole range is refused.
    BadRecord,
    /// The combined weight of the matching snapshots does not fit in 64
    /// bits.
    WeightOverflow,
}

/// The answer to a quantile query.
pub struct QuantileResult {
    pub agg_level: String,
    pub sample_count: u64,
    /// Label/value pairs, e.g. ("p50", "12.345"); values are milliseconds
    /// at three decimal places.
    pub quantiles: Vec<(String, String)>,
}

/// Milliseconds at three decimal places: the exact rendering of a
/// microsecond count.
pub open spec fn fmt_ms(micros: int) -> Seq<char> {
    dec_of((micros / 1000) as nat) + seq!['.'] + dec_fixed((micros % 1000) as nat, 3)
}

/// Renders a microsecond count as milliseconds at three decimal places.
pub fn format_millis(micros: u64) -> (r: String)
    ensures
        r@ == fmt_ms(micros as int),
{
    proof {
        reveal_strlit(".");
    }
    let mut s = u64_to_dec(micros / 1000);
    s.append(".");
    push_dec_fixed(&mut s, micros % 1000, 3);
    proof {
        assert("."@ =~= seq!['.']);
        assert(s@ =~= fmt_ms(micros as int));
    }
    s
}

/// All centroids carried by a sequence of snapshot blobs.
pub open spec fn query_cents(blobs: Seq<Seq<char>>) -> Seq<Centroid>
    decreases blobs.len(),
{
    if blobs.len() == 0 {
        Seq::empty()
    } else {
        query_cents(blobs.drop_last()) + parsed_cents(blobs.last())
    }
}

/// The combined weight carried by a sequence of snapshot blobs.
pub open spec fn query_weight(blobs: Seq<Seq<char>>) -> int
    decreases blobs.len(),
{
    if blobs.len() == 0 {
        0
    } else {
        query_weight(blobs.drop_last()) + sum_weights(parsed_cents(blobs.last()))
    }
}

/// The compression factor the merged sketch runs under: the largest of the
/// blobs' factors, at least the default of 100.
pub open spec fn query_compression(blobs: Seq<Seq<char>>) -> int
    decreases blobs.len(),
{
    if blobs.len() == 0 {
        100
    } else {
        let rest = query_compression(blobs.drop_last());
        if parse_u64_at(blobs.last(), 0) >= rest {
            parse_u64_at(blobs.last(), 0)
        } else {
            rest
        }
    }
}

/// The quantile estimate the merged view of the blobs gives at
/// `q_permille/1000`.
pub open spec fn query_estimate(blobs: Seq<Seq<char>>, q_permille: int) -> int {
    estimate_spec(
        compress_seq(query_cents(blobs).sort_by(cent_leq()), query_compression(blobs)),
        query_weight(blobs),
        q_permille,
    )
}

/// Decoded sketches carry exactly what their blobs spell out, so the merge
/// model over the sketches equals the model over the blobs.
proof fn lemma_models_bridge(v: Seq<Sketch>, blobs: Seq<Seq<char>>)
    requires
        decoded_match(v, blobs),
    ensures
        concat_cents(v) == query_cents(blobs),
        totals_sum(v) == query_weight(blobs),
        merged_compression(v) == query_compression(blobs),
    decreases v.len(),
{
    if v.len() > 0 {
        assert(decoded_match(v.drop_last(), blobs.drop_last())) by {
            assert forall|i: int| 0 <= i < blobs.drop_last().len() implies blob_ok(
                #[trigger] blobs.drop_last()[i],
            ) by {
                assert(blobs.drop_last()[i] == blobs[i]);
            }
            assert forall|i: int| 0 <= i < v.drop_last().len() implies (
            #[trigger] v.drop_last()[i]).wf() && v.drop_last()[i].centroids@ == parsed_cents(
                blobs.drop_last()[i],
            ) && v.drop_last()[i].total == sum_weights(parsed_cents(blobs.drop_last()[i]))
                && v.drop_last()[i].compression == parse_u64_at(blobs.drop_last()[i], 0) by {
                assert(v.drop_last()[i] == v[i]);
                assert(blobs.drop_last()[i] == blobs[i]);
            }
        }
        lemma_models_bridge(v.drop_last(), blobs.drop_last());
        assert(v.last().centroids@ == parsed_cents(blobs.last()));
        assert(v.last().total == sum_weights(parsed_cents(blobs.last())));
        assert(v.last().compression == parse_u64_at(blobs.last(), 0));
        assert(concat_cents(v) =~= query_cents(blobs));
    } else {
        assert(concat_cents(v) =~= query_cents(blobs));
    }
}

/// Answers a quantile query over `[from, to]`: merges every matching
/// stored snapshot and evaluates p50, p75, p90, p95 and p99 of the
/// combined distribution, each formatted as milliseconds at three decimal
/// places. The reported sample count is the merged sketch's total weight.
pub fn get_quantiles(svc: &Service, store: &DigestStore, agg_level: &str, from: i64, to: i64) -> (r:
    Result<QuantileResult, QueryError>)
    ensures
        ({
            let blobs = matching_blobs(store.records@, svc.app@, agg_level@, from as int, to as int);
            match r {
                Ok(res) => {
                    &&& forall|i: int| 0 <= i < blobs.len() ==> blob_ok(#[trigger] blobs[i])
                    &&& query_weight(blobs) <= u64::MAX
                    &&& res.agg_level@ == agg_level@
                    &&& res.sample_count == query_weight(blobs)
                    &&& (query_weight(blobs) == 0 ==> res.quantiles@.len() == 0)
                    &&& (query_weight(blobs) > 0 ==> {
                        &&& res.quantiles@.len() == 5
                        &&& res.quantiles@[0].0@ == "p50"@ && res.quantiles@[0].1@ == fmt_ms(
                            query_estimate(blobs, 500),
                        )
                        &&& res.quantiles@[1].0@ == "p75"@ && res.quantiles@[1].1@ == fmt_ms(
                            query_estimate(blobs, 750),
                        )
                        &&& res.quantiles@[2].0@ == "p90"@ && res.quantiles@[2].1@ == fmt_ms(
                            query_estimate(blobs, 900),
                        )
                        &&& res.quantiles@[3].0@ == "p95"@ && res.quantiles@[3].1@ == fmt_ms(
                            query_estimate(blobs, 950),
                        )
                        &&& res.quantiles@[4].0@ == "p99"@ && res.quantiles@[4].1@ == fmt_ms(
                            query_estimate(blobs, 990),
                        )
                    })
                },
                Err(e) => match e {
                    QueryError::BadRecord => exists|i: int|
                        0 <= i < blobs.len() && !blob_ok(#[trigger] blobs[i]),
                    QueryError::WeightOverflow => (forall|i: int|
                        0 <= i < blobs.len() ==> blob_ok(#[trigger] blobs[i])) && query_weight(
                        blobs,
                    ) > u64::MAX,
                },
            }
        }),
{
    let sketches = match svc.query_digests(store, agg_level, from, to) {
        Ok(v) => v,
        Err(_) => {
            return Err(QueryError::BadRecord);
        },
    };
    let ghost blobs = matching_blobs(store.records@, svc.app@, agg_level@, from as int, to as int);
    let mut total: u64 = 0;
    let mut i: usize = 0;
    proof {
        assert(sketches@.take(0) =~= Seq::<Sketch>::empty());
    }
    while i < sketches.len()
        invariant
            i <= sketches@.len(),
            blobs == matching_blobs(store.records@, svc.app@, agg_level@, from as int, to as int),
            decoded_match(sketches@, blobs),
            total == totals_sum(sketches@.take(i as int)),
        decreases sketches@.len() - i,
    {
        proof {
            lemma_totals_take_step(sketches@, i as int);
        }
        let w = sketches[i].total_weight();
        total = match total.checked_add(w) {
            Some(t) => t,
            None => {
                proof {
                    lemma_totals_split(sketches@, i as int + 1);
                    lemma_totals_nonneg(sketches@.skip(i as int + 1));
                    lemma_models_bridge(sketches@, blobs);
                }
                return Err(QueryError::WeightOverflow);
            },
        };
        i = i + 1;
    }
    proof {
        assert(sketches@.take(sketches@.len() as int) =~= sketches@);
        lemma_models_bridge(sketches@, blobs);
    }
    if total == 0 {
        return Ok(
            QuantileResult {
                agg_level: agg_level.to_owned(),
                sample_count: 0,
                quantiles: Vec::new(),
            },
        );
    }
    let ghost sv = sketches@;
    let merged = merge_digests(sketches);
    proof {
        assert(merged.total == total);
        if merged.centroids@.len() == 0 {
            assert(sum_weights(merged.centroids@) == 0);
        }
        lemma_quantile_walk_bounds(
            merged.centroids@,
            0,
            quantile_target(merged.total as int, 500),
        );
        lemma_quantile_walk_bounds(
            merged.centroids@,
            0,
            quantile_target(merged.total as int, 750),
        );
        lemma_quantile_walk_bounds(
            merged.centroids@,
            0,
            quantile_target(merged.total as int, 900),
        );
        lemma_quantile_walk_bounds(
            merged.centroids@,
            0,
            quantile_target(merged.total as int, 950),
        );
        lemma_quantile_walk_bounds(
            merged.centroids@,
            0,
            quantile_target(merged.total as int, 990),
        );
    }
    let v50 = match merged.estimate_quantile(500) {
        Some(x) => x,
        None => 0,
    };
    let v75 = match merged.estimate_quantile(750) {
        Some(x) => x,
        None => 0,
    };
    let v90 = match merged.estimate_quantile(900) {
        Some(x) => x,
        None => 0,
    };
    let v95 = match merged.estimate_quantile(950) {
        Some(x) => x,
        None => 0,
    };
    let v99 = match merged.estimate_quantile(990) {
        Some(x) => x,
        None => 0,
    };
    let mut qs: Vec<(String, String)> = Vec::new();
    qs.push(("p50".to_owned(), format_millis(v50)));
    qs.push(("p75".to_owned(), format_millis(v75)));
    qs.push(("p90".to_owned(), format_millis(v90)));
    qs.push(("p95".to_owned(), format_millis(v95)));
    qs.push(("p99".to_owned(), format_millis(v99)));
    let sample_count = merged.total_weight();
    Ok(QuantileResult { agg_level: agg_level.to_owned(), sample_count, quantiles: qs })
}

} // verus!
