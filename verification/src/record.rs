//! Persisted snapshot records.
//!
//! A record carries one serialized sketch snapshot together with the
//! identity it was flushed under and its creation instant, floored to the
//! aggregation bucket. The record key `app:agg_level:node_id` is not unique
//! across time: each flush overwrites the previous record of the same key.

use vstd::prelude::*;
use vstd::string::StringExecFns;
use crate::clock::{format_rfc3339, rfc3339_of};

verus! {

/// One persisted snapshot.
pub struct TDigestRecord {
    /// `app:agg_level:node_id`.
    pub key: String,
    pub app: String,
    pub agg_level: String,
    /// Seconds since the Unix epoch, floored to the aggregation bucket.
    pub created_at: i64,
    pub node_id: String,
    /// The serialized sketch.
    pub tdigest: String,
}

/// The characters of a record key.
pub open spec fn key_chars(app: Seq<char>, agg_level: Seq<char>, node: Seq<char>) -> Seq<char> {
    app + seq![':'] + agg_level + seq![':'] + node
}

/// Builds a record key: `app:agg_level:node`.
pub fn make_key(app: &str, agg_level: &str, node: &str) -> (r: String)
    ensures
        r@ == key_chars(app@, agg_level@, node@),
{
    proof {
        reveal_strlit(":");
    }
    let mut s = app.to_owned();
    s.append(":");
    s.append(agg_level);
    s.append(":");
    s.append(node);
    proof {
        assert(":"@ =~= seq![':']);
        assert(s@ =~= key_chars(app@, agg_level@, node@));
    }
    s
}

/// The attribute pairs of a record, ready to become a key-value store item.
/// The creation instant is rendered as RFC 3339; only a timestamp the
/// calendar cannot express makes this fail.
pub fn record_to_item(record: &TDigestRecord) -> (r: Option<Vec<(String, String)>>)
    ensures
        0 <= record.created_at <= 253402300799 ==> r is Some,
        r is Some ==> {
            let v = r.unwrap()@;
            &&& v.len() == 6
            &&& v[0].0@ == "key"@ && v[0].1@ == record.key@
            &&& v[1].0@ == "app"@ && v[1].1@ == record.app@
            &&& v[2].0@ == "agg_level"@ && v[2].1@ == record.agg_level@
            &&& v[3].0@ == "created_at"@ && v[3].1@ == rfc3339_of(record.created_at as int)
            &&& v[4].0@ == "node_id"@ && v[4].1@ == record.node_id@
            &&& v[5].0@ == "tdigest"@ && v[5].1@ == record.tdigest@
        },
{
    let created_at = match format_rfc3339(record.created_at) {
        Some(s) => s,
        None => {
            return None;
        },
    };
    let mut v: Vec<(String, String)> = Vec::new();
    v.push(("key".to_owned(), record.key.clone()));
    v.push(("app".to_owned(), record.app.clone()));
    v.push(("agg_level".to_owned(), record.agg_level.clone()));
    v.push(("created_at".to_owned(), created_at));
    v.push(("node_id".to_owned(), record.node_id.clone()));
    v.push(("tdigest".to_owned(), record.tdigest.clone()));
    Some(v)
}

} // verus!
