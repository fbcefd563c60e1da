//! The snapshot table: upsert by key, scan by identity and time range.
//!
//! This is the storage layer's contract in memory: a flat sequence of
//! records with pairwise distinct keys. `put` is an idempotent upsert; a
//! range query is a full scan with a filter, so its cost grows with the
//! total record count, not the matched subset — acceptable at the low
//! record cardinality this table sees. A program that keeps its records in
//! an external key-value store reproduces exactly these semantics.

use vstd::prelude::*;
use vstd::pervasive::VecAdditionalExecFns;
use crate::record::TDigestRecord;

verus! {

/// Compares two string slices by their characters.
pub fn str_eq(a: &str, b: &str) -> (r: bool)
    ensures
        r == (a@ == b@),
{
    let sa = a.to_owned();
    let sb = b.to_owned();
    sa == sb
}

/// The snapshot table.
pub struct DigestStore {
    pub records: Vec<TDigestRecord>,
}

/// Whether a record answers a scan for `app` and `level` over the inclusive
/// creation-time range `[from, to]`.
pub open spec fn rec_matches(
    r: TDigestRecord,
    app: Seq<char>,
    level: Seq<char>,
    from: int,
    to: int,
) -> bool {
    r.app@ == app && r.agg_level@ == level && from <= r.created_at <= to
}

/// The scan predicate as a first-class relation.
pub open spec fn match_pred(app: Seq<char>, level: Seq<char>, from: int, to: int) -> spec_fn(
    TDigestRecord,
) -> bool {
    |r: TDigestRecord| rec_matches(r, app, level, from, to)
}

/// Projection of a record to its sketch blob.
pub open spec fn blob_of() -> spec_fn(TDigestRecord) -> Seq<char> {
    |r: TDigestRecord| r.tdigest@
}

/// Projection of an owned string to its characters.
pub open spec fn string_view() -> spec_fn(String) -> Seq<char> {
    |s: String| s@
}

/// The sketch blobs of the matching records, in table order.
pub open spec fn matching_blobs(
    rs: Seq<TDigestRecord>,
    app: Seq<char>,
    level: Seq<char>,
    from: int,
    to: int,
) -> Seq<Seq<char>> {
    rs.filter(match_pred(app, level, from, to)).map_values(blob_of())
}

/// How an upsert relates the table before and after: an existing record of
/// the same key is overwritten in place, a fresh key is appended.
pub open spec fn upsert_spec(
    old_rs: Seq<TDigestRecord>,
    new_rs: Seq<TDigestRecord>,
    rec: TDigestRecord,
) -> bool {
    if exists|i: int| 0 <= i < old_rs.len() && (#[trigger] old_rs[i]).key@ == rec.key@ {
        new_rs == old_rs.update(
            choose|i: int| 0 <= i < old_rs.len() && (#[trigger] old_rs[i]).key@ == rec.key@,
            rec,
        )
    } else {
        new_rs == old_rs.push(rec)
    }
}

impl DigestStore {
    /// Keys are pairwise distinct.
    pub open spec fn wf(&self) -> bool {
        forall|i: int, j: int|
            0 <= i < j < self.records@.len() ==> (#[trigger] self.records@[i]).key@ != (
            #[trigger] self.records@[j]).key@
    }

    /// An empty table.
    pub fn new() -> (r: DigestStore)
        ensures
            r.wf(),
            r.records@.len() == 0,
    {
        let r = DigestStore { records: Vec::new() };
        r
    }

    /// Idempotent upsert keyed by `rec.key`: overwrites any prior record
    /// with the same key, otherwise appends.
    pub fn put(&mut self, rec: TDigestRecord)
        requires
            old(self).wf(),
        ensures
            final(self).wf(),
            upsert_spec(old(self).records@, final(self).records@, rec),
    {
        let mut i: usize = 0;
        while i < self.records.len()
            invariant
                i <= self.records@.len(),
                *self == *old(self),
                self.wf(),
                forall|k: int| 0 <= k < i ==> (#[trigger] self.records@[k]).key@ != rec.key@,
            decreases self.records@.len() - i,
        {
            if str_eq(self.records[i].key.as_str(), rec.key.as_str()) {
                self.records.set(i, rec);
                proof {
                    assert(upsert_spec(old(self).records@, self.records@, self.records@[i as int]))
                        by {
                        let o = old(self).records@;
                        let w = choose|k: int|
                            0 <= k < o.len() && (#[trigger] o[k]).key@ == self.records@[
                            i as int].key@;
                        assert(o[i as int].key@ == self.records@[i as int].key@);
                        assert(w == i as int);
                    }
                }
                return ;
            }
            i = i + 1;
        }
        self.records.push(rec);
        proof {
            let o = old(self).records@;
            assert(forall|k: int| 0 <= k < o.len() ==> (#[trigger] o[k]).key@ != rec.key@);
        }
    }

    /// The sketch blobs of every record matching `app` and `agg_level`
    /// whose creation instant lies in `[from, to]`, across all nodes, in
    /// table order. A full scan with a filter.
    pub fn query_range(&self, app: &str, agg_level: &str, from: i64, to: i64) -> (r: Vec<String>)
        ensures
            r@.map_values(string_view()) == matching_blobs(
                self.records@,
                app@,
                agg_level@,
                from as int,
                to as int,
            ),
    {
        let mut out: Vec<String> = Vec::new();
        let mut i: usize = 0;
        proof {
            reveal(Seq::filter);
            assert(self.records@.take(0) =~= Seq::<TDigestRecord>::empty());
            assert(out@.map_values(string_view()) =~= matching_blobs(
                self.records@.take(0),
                app@,
                agg_level@,
                from as int,
                to as int,
            ));
        }
        while i < self.records.len()
            invariant
                i <= self.records@.len(),
                out@.map_values(string_view()) == matching_blobs(
                    self.records@.take(i as int),
                    app@,
                    agg_level@,
                    from as int,
                    to as int,
                ),
            decreases self.records@.len() - i,
        {
            let rec = &self.records[i];
            let app_eq = str_eq(rec.app.as_str(), app);
            let level_eq = str_eq(rec.agg_level.as_str(), agg_level);
            let in_range = from <= rec.created_at && rec.created_at <= to;
            proof {
                reveal(Seq::filter);
                let pred = match_pred(app@, agg_level@, from as int, to as int);
                let pre = self.records@.take(i as int);
                let post = self.records@.take(i as int + 1);
                assert(post.drop_last() =~= pre);
                assert(post.last() == self.records@[i as int]);
                assert(post.filter(pred) == if pred(self.records@[i as int]) {
                    pre.filter(pred).push(self.records@[i as int])
                } else {
                    pre.filter(pred)
                });
            }
            if app_eq && level_eq && in_range {
                let ghost out_pre = out@;
                out.push(rec.tdigest.clone());
                proof {
                    reveal(Seq::filter);
                    let pred = match_pred(app@, agg_level@, from as int, to as int);
                    let pre = self.records@.take(i as int);
                    let post = self.records@.take(i as int + 1);
                    let b = self.records@[i as int].tdigest@;
                    assert(pred(self.records@[i as int]));
                    assert(post.drop_last() =~= pre);
                    assert(post.last() == self.records@[i as int]);
                    assert(post.filter(pred) == pre.filter(pred).push(self.records@[i as int]));
                    assert(out@ == out_pre.push(self.records@[i as int].tdigest));
                    assert(out@.map_values(string_view()) =~= out_pre.map_values(
                        string_view(),
                    ).push(b)) by {
                        assert forall|k: int|
                            0 <= k < out@.len() implies out@.map_values(string_view())[k]
                            == out_pre.map_values(string_view()).push(b)[k] by {
                            if k < out@.len() - 1 {
                                assert(out@[k] == out_pre[k]);
                            } else {
                                assert(out@[k] == self.records@[i as int].tdigest);
                            }
                        }
                    }
                    assert(post.filter(pred).map_values(blob_of()) =~= pre.filter(
                        pred,
                    ).map_values(blob_of()).push(b)) by {
                        let pf = pre.filter(pred);
                        assert forall|k: int|
                            0 <= k < pf.push(self.records@[i as int]).len() implies pf.push(
                            self.records@[i as int],
                        ).map_values(blob_of())[k] == pf.map_values(blob_of()).push(b)[k] by {
                            if k < pf.len() {
                                assert(pf.push(self.records@[i as int])[k] == pf[k]);
                            } else {
                                assert(pf.push(self.records@[i as int])[k] == self.records@[
                                i as int]);
                            }
                        }
                    }
                    assert(out@.map_values(string_view()) =~= post.filter(pred).map_values(
                        blob_of(),
                    ));
                }
            } else {
                proof {
                    reveal(Seq::filter);
                    let pred = match_pred(app@, agg_level@, from as int, to as int);
                    let post = self.records@.take(i as int + 1);
                    assert(!pred(self.records@[i as int]));
                    assert(out@.map_values(string_view()) =~= post.filter(pred).map_values(
                        blob_of(),
                    ));
                }
            }
            i = i + 1;
        }
        proof {
            assert(self.records@.take(self.records@.len() as int) =~= self.records@);
        }
        out
    }
}

} // verus!
