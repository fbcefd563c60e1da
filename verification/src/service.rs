//! The storage service: builds snapshot records and reads them back.
//!
//! A service is bound to one application and node identity. Flushing builds
//! a record for the current minute bucket and upserts it; querying scans
//! the table and deserializes every matching snapshot. One undecodable
//! record fails the whole range: deliberately all-or-nothing, so a corrupt
//! snapshot is never silently dropped from a result.

use vstd::prelude::*;
use vstd::string::StringExecFns;
use crate::clock::{bucket_floor, floor_to_bucket, now_epoch_secs};
use crate::codec::{blob_ok, parse_u64_at, parsed_cents, render_sketch, serialize_sketch,
    deserialize_sketch};
use crate::record::{key_chars, make_key, TDigestRecord};
use crate::sketch::{sum_weights, Sketch};
use crate::store::{matching_blobs, string_view, upsert_spec, DigestStore};

verus! {

/// A range query failed because some stored snapshot did not deserialize.
#[derive(Clone, Copy, PartialEq, Eq, Structural, Debug)]
pub struct CodecError;

/// The identity a service writes and reads records under.
pub struct Service {
    pub app: String,
    pub node: String,
}

/// The field equations of the record a flush writes.
pub open spec fn record_built(
    rec: TDigestRecord,
    app: Seq<char>,
    agg_level: Seq<char>,
    node: Seq<char>,
    blob: Seq<char>,
    created_at: int,
) -> bool {
    &&& rec.key@ == key_chars(app, agg_level, node)
    &&& rec.app@ == app
    &&& rec.agg_level@ == agg_level
    &&& rec.node_id@ == node
    &&& rec.tdigest@ == blob
    &&& rec.created_at == created_at
}

/// A clock reading clamped to the epoch and floored to the minute.
pub open spec fn flush_instant(now_secs: int) -> int {
    bucket_floor(
        if now_secs < 0 {
            0
        } else {
            now_secs
        },
        60,
    )
}

/// What one flush at clock reading `t` does to the table.
pub open spec fn flushed_at(
    old_rs: Seq<TDigestRecord>,
    new_rs: Seq<TDigestRecord>,
    app: Seq<char>,
    agg_level: Seq<char>,
    node: Seq<char>,
    blob: Seq<char>,
    t: int,
) -> bool {
    exists|rec: TDigestRecord|
        record_built(rec, app, agg_level, node, blob, flush_instant(t)) && #[trigger] upsert_spec(
            old_rs,
            new_rs,
            rec,
        )
}

/// Every sketch of `v` decodes one blob of `blobs`, in order.
pub open spec fn decoded_match(v: Seq<Sketch>, blobs: Seq<Seq<char>>) -> bool {
    &&& v.len() == blobs.len()
    &&& forall|i: int| 0 <= i < blobs.len() ==> blob_ok(#[trigger] blobs[i])
    &&& forall|i: int| 0 <= i < v.len() ==> (#[trigger] v[i]).wf()
    &&& forall|i: int|
        0 <= i < v.len() ==> (#[trigger] v[i]).centroids@ == parsed_cents(blobs[i])
    &&& forall|i: int|
        0 <= i < v.len() ==> (#[trigger] v[i]).total == sum_weights(parsed_cents(blobs[i]))
    &&& forall|i: int| 0 <= i < v.len() ==> (#[trigger] v[i]).compression == parse_u64_at(blobs[i], 0)
}

impl Service {
    pub fn new(app: String, node: String) -> (r: Service)
        ensures
            r.app@ == app@,
            r.node@ == node@,
    {
        Service { app, node }
    }

    /// The record key this service writes at an aggregation level:
    /// `app:agg_level:node`.
    pub fn record_key(&self, agg_level: &str) -> (r: String)
        ensures
            r@ == key_chars(self.app@, agg_level@, self.node@),
    {
        make_key(self.app.as_str(), agg_level, self.node.as_str())
    }

    /// The record a flush observed at clock reading `now_secs` persists:
    /// the serialized sketch under this service's key, created at the start
    /// of the minute. A reading before the epoch is clamped to it.
    pub fn build_record(&self, agg_level: &str, sketch: &Sketch, now_secs: i64) -> (r:
        TDigestRecord)
        ensures
            record_built(
                r,
                self.app@,
                agg_level@,
                self.node@,
                render_sketch(*sketch),
                flush_instant(now_secs as int),
            ),
    {
        let now: i64 = if now_secs < 0 {
            0
        } else {
            now_secs
        };
        TDigestRecord {
            key: self.record_key(agg_level),
            app: self.app.clone(),
            agg_level: agg_level.to_owned(),
            created_at: floor_to_bucket(now, 60),
            node_id: self.node.clone(),
            tdigest: serialize_sketch(sketch),
        }
    }

    /// Upserts the snapshot observed at clock reading `now_secs`.
    pub fn store_tdigest_at(
        &self,
        store: &mut DigestStore,
        agg_level: &str,
        sketch: &Sketch,
        now_secs: i64,
    )
        requires
            old(store).wf(),
        ensures
            final(store).wf(),
            flushed_at(
                old(store).records@,
                final(store).records@,
                self.app@,
                agg_level@,
                self.node@,
                render_sketch(*sketch),
                now_secs as int,
            ),
    {
        let rec = self.build_record(agg_level, sketch, now_secs);
        proof {
            let ghost grec = rec;
            assert(record_built(
                grec,
                self.app@,
                agg_level@,
                self.node@,
                render_sketch(*sketch),
                flush_instant(now_secs as int),
            ));
        }
        store.put(rec);
    }

    /// Reads the wall clock and upserts the snapshot for that instant.
    /// Whatever the clock returned, the table afterwards holds this flush.
    pub fn store_tdigest(&self, store: &mut DigestStore, agg_level: &str, sketch: &Sketch)
        requires
            old(store).wf(),
        ensures
            final(store).wf(),
            exists|t: int|
                #[trigger] flushed_at(
                    old(store).records@,
                    final(store).records@,
                    self.app@,
                    agg_level@,
                    self.node@,
                    render_sketch(*sketch),
                    t,
                ),
    {
        let now = now_epoch_secs();
        self.store_tdigest_at(store, agg_level, sketch, now);
    }

    /// The deserialized sketches of every record of this service's app at
    /// `agg_level` created within `[from, to]`, in table order. One
    /// undecodable blob fails the whole query.
    pub fn query_digests(&self, store: &DigestStore, agg_level: &str, from: i64, to: i64) -> (r:
        Result<Vec<Sketch>, CodecError>)
        ensures
            ({
                let blobs = matching_blobs(
                    store.records@,
                    self.app@,
                    agg_level@,
                    from as int,
                    to as int,
                );
                match r {
                    Ok(v) => decoded_match(v@, blobs),
                    Err(e) => exists|i: int| 0 <= i < blobs.len() && !blob_ok(#[trigger] blobs[i]),
                }
            }),
    {
        let raw = store.query_range(self.app.as_str(), agg_level, from, to);
        let ghost blobs = matching_blobs(
            store.records@,
            self.app@,
            agg_level@,
            from as int,
            to as int,
        );
        let mut v: Vec<Sketch> = Vec::new();
        let mut i: usize = 0;
        while i < raw.len()
            invariant
                i <= raw@.len(),
                raw@.map_values(string_view()) == blobs,
                blobs == matching_blobs(
                    store.records@,
                    self.app@,
                    agg_level@,
                    from as int,
                    to as int,
                ),
                v@.len() == i,
                decoded_match(v@, blobs.take(i as int)),
            decreases raw@.len() - i,
        {
            proof {
                assert(raw@.map_values(string_view())[i as int] == raw@[i as int]@);
                assert(blobs[i as int] == raw@[i as int]@);
            }
            match deserialize_sketch(raw[i].as_str()) {
                Some(k) => {
                    v.push(k);
                    proof {
                        let pre = blobs.take(i as int);
                        let post = blobs.take(i as int + 1);
                        assert(post.drop_last() =~= pre);
                        assert(post.last() == blobs[i as int]);
                        assert forall|m: int| 0 <= m < post.len() implies blob_ok(
                            #[trigger] post[m],
                        ) by {
                            if m < post.len() - 1 {
                                assert(post[m] == pre[m]);
                            }
                        }
                        assert(decoded_match(v@, post));
                    }
                },
                None => {
                    proof {
                        assert(!blob_ok(blobs[i as int]));
                    }
                    return Err(CodecError);
                },
            }
            i = i + 1;
        }
        proof {
            assert(blobs.take(blobs.len() as int) =~= blobs);
        }
        Ok(v)
    }
}

} // verus!
