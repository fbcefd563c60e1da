//! The event-source boundary: fixed-layout binary RTT records.
//!
//! The upstream instrumentation delivers 12-byte records of three
//! consecutive little-endian unsigned 32-bit fields: smoothed RTT in
//! microseconds, source address, destination address. Decoding is explicit
//! and bounds-checked; nothing relies on any native struct layout.

use vstd::prelude::*;
use vstd::string::StringExecFns;
use crate::digits::dec_of;
use crate::summary::Summary;

verus! {

/// One RTT measurement event as produced by the upstream instrumentation.
/// Addresses are raw IPv4 values in host byte order.
#[derive(Clone, Copy, PartialEq, Eq, Structural, Debug)]
pub struct RttEvent {
    pub srtt_us: u32,
    pub src_addr: u32,
    pub dst_addr: u32,
}

/// The little-endian 32-bit value at byte offset `off`.
pub open spec fn le32_at(b: Seq<u8>, off: int) -> int {
    b[off] + 256 * b[off + 1] + 65536 * b[off + 2] + 16777216 * b[off + 3]
}

fn read_le32(bytes: &[u8], off: usize) -> (r: u32)
    requires
        off + 4 <= bytes@.len(),
    ensures
        r == le32_at(bytes@, off as int),
{
    (bytes[off] as u32) + 256 * (bytes[off + 1] as u32) + 65536 * (bytes[off + 2] as u32)
        + 16777216 * (bytes[off + 3] as u32)
}

/// Decodes one event record. Exactly the 12-byte records of the documented
/// layout decode; any other length is rejected.
pub fn decode_event(bytes: &[u8]) -> (r: Option<RttEvent>)
    ensures
        r is Some <==> bytes@.len() == 12,
        bytes@.len() == 12 ==> r == Some(
            RttEvent {
                srtt_us: le32_at(bytes@, 0) as u32,
                src_addr: le32_at(bytes@, 4) as u32,
                dst_addr: le32_at(bytes@, 8) as u32,
            },
        ),
{
    if bytes.len() != 12 {
        return None;
    }
    let srtt_us = read_le32(bytes, 0);
    let src_addr = read_le32(bytes, 4);
    let dst_addr = read_le32(bytes, 8);
    Some(RttEvent { srtt_us, src_addr, dst_addr })
}

/// The dotted-quad rendering of a host-order IPv4 address.
pub open spec fn ip_chars(ip: int) -> Seq<char> {
    dec_of((ip / 16777216) as nat) + seq!['.'] + dec_of(((ip / 65536) % 256) as nat) + seq!['.']
        + dec_of(((ip / 256) % 256) as nat) + seq!['.'] + dec_of((ip % 256) as nat)
}

/// Renders a host-order IPv4 address as a dotted quad, for diagnostics.
pub fn u32_to_ip(ip: u32) -> (r: String)
    ensures
        r@ == ip_chars(ip as int),
{
    proof {
        reveal_strlit(".");
    }
    let mut s = crate::digits::u64_to_dec((ip / 16777216) as u64);
    s.append(".");
    let o2 = crate::digits::u64_to_dec(((ip / 65536) % 256) as u64);
    s.append(o2.as_str());
    s.append(".");
    let o3 = crate::digits::u64_to_dec(((ip / 256) % 256) as u64);
    s.append(o3.as_str());
    s.append(".");
    let o4 = crate::digits::u64_to_dec((ip % 256) as u64);
    s.append(o4.as_str());
    proof {
        assert("."@ =~= seq!['.']);
        assert(s@ =~= ip_chars(ip as int));
    }
    s
}

/// One step of the ingestion loop: decode a pulled record and feed the
/// aggregator. A malformed record is dropped and leaves the summary
/// untouched.
pub fn ingest_record(summary: &mut Summary, bytes: &[u8]) -> (r: Option<RttEvent>)
    requires
        old(summary).wf(),
        old(summary).count < u64::MAX,
    ensures
        final(summary).wf(),
        r is Some <==> bytes@.len() == 12,
        r is Some ==> final(summary).count == old(summary).count + 1 && r.unwrap().srtt_us
            == le32_at(bytes@, 0) as u32 && final(summary).digest.centroids@ == old(
            summary,
        ).digest.spec_add(le32_at(bytes@, 0) as u32 as u64),
        r is None ==> *final(summary) == *old(summary),
{
    match decode_event(bytes) {
        Some(e) => {
            summary.add_rtt(e.srtt_us);
            Some(e)
        },
        None => None,
    }
}

/// The fault handler of the instrumentation boundary. A fault inside the
/// probe has nothing to unwind and nothing it may report; the handler is
/// deliberately inert.
pub fn panic() {
}

} // verus!
