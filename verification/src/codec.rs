//! String serialization of sketches.
//!
//! A sketch snapshot is persisted as a flat hexadecimal string: sixteen
//! digits for the compression factor, sixteen for the centroid count, then
//! sixteen for the mean and sixteen for the weight of each centroid in
//! order. The fixed-width form parses unambiguously, and deserialization
//! validates everything a well-formed sketch needs, so a reloaded snapshot
//! is the very sketch that was stored.

use vstd::prelude::*;
use vstd::string::{StrSliceExecFns, StringExecFns};
use crate::digits::{
    all_hex,
    hex_of,
    hex_parse,
    hex_val,
    is_hex_char,
    lemma_hex_round_trip,
    lemma_pow16_16,
    lemma_pow16_increases,
    pow16,
    push_hex16,
};
use crate::sketch::{
    max_len,
    mean_sorted,
    sum_weights,
    weights_positive,
    Centroid,
    Sketch,
};

verus! {

/// The serialized form of a centroid sequence.
pub open spec fn render_cents(cs: Seq<Centroid>) -> Seq<char>
    decreases cs.len(),
{
    if cs.len() == 0 {
        Seq::empty()
    } else {
        render_cents(cs.drop_last()) + hex_of(cs.last().mean as nat, 16) + hex_of(
            cs.last().weight as nat,
            16,
        )
    }
}

/// The serialized form of a sketch.
pub open spec fn render_sketch(s: Sketch) -> Seq<char> {
    hex_of(s.compression as nat, 16) + hex_of(s.centroids@.len() as nat, 16) + render_cents(
        s.centroids@,
    )
}

/// The sixteen-digit field at character offset `off`.
pub open spec fn parse_u64_at(s: Seq<char>, off: int) -> int {
    hex_parse(s.subrange(off, off + 16))
}

/// The centroid whose mean and weight fields begin at offset `off`.
pub open spec fn cent_at(s: Seq<char>, off: int) -> Centroid {
    Centroid {
        mean: parse_u64_at(s, off) as u64,
        weight: parse_u64_at(s, off + 16) as u64,
    }
}

/// The first `k` centroids parsed from offset `off` on.
pub open spec fn parse_centroids(s: Seq<char>, off: int, k: nat) -> Seq<Centroid>
    decreases k,
{
    if k == 0 {
        Seq::empty()
    } else {
        parse_centroids(s, off, (k - 1) as nat).push(cent_at(s, off + 32 * (k - 1)))
    }
}

/// The centroid sequence a blob of valid length carries.
pub open spec fn parsed_cents(s: Seq<char>) -> Seq<Centroid> {
    parse_centroids(s, 32, ((s.len() - 32) / 32) as nat)
}

/// Exactly the blobs that deserialize: well-shaped hexadecimal text whose
/// fields describe a well-formed sketch.
pub open spec fn blob_ok(s: Seq<char>) -> bool {
    &&& all_hex(s)
    &&& s.len() >= 32
    &&& (s.len() - 32) % 32 == 0
    &&& parse_u64_at(s, 16) == (s.len() - 32) / 32
    &&& 1 <= parse_u64_at(s, 0) <= 0x10_0000
    &&& mean_sorted(parsed_cents(s))
    &&& weights_positive(parsed_cents(s))
    &&& sum_weights(parsed_cents(s)) <= u64::MAX
    &&& parsed_cents(s).len() <= max_len(parse_u64_at(s, 0))
}

/// Serializes a sketch.
pub fn serialize_sketch(s: &Sketch) -> (r: String)
    ensures
        r@ == render_sketch(*s),
{
    let mut out = String::new();
    push_hex16(&mut out, s.compression);
    push_hex16(&mut out, s.centroids.len() as u64);
    let ghost head = hex_of(s.compression as nat, 16) + hex_of(s.centroids@.len() as nat, 16);
    proof {
        assert(out@ =~= head + render_cents(s.centroids@.take(0)));
    }
    let mut i: usize = 0;
    while i < s.centroids.len()
        invariant
            i <= s.centroids@.len(),
            head == hex_of(s.compression as nat, 16) + hex_of(s.centroids@.len() as nat, 16),
            out@ == head + render_cents(s.centroids@.take(i as int)),
        decreases s.centroids@.len() - i,
    {
        let c = s.centroids[i];
        push_hex16(&mut out, c.mean);
        push_hex16(&mut out, c.weight);
        proof {
            let pre = s.centroids@.take(i as int);
            let post = s.centroids@.take(i as int + 1);
            assert(post.drop_last() =~= pre);
            assert(post.last() == s.centroids@[i as int]);
            assert(out@ =~= head + render_cents(post));
        }
        i = i + 1;
    }
    proof {
        assert(s.centroids@.take(s.centroids@.len() as int) =~= s.centroids@);
        assert(out@ =~= render_sketch(*s));
    }
    out
}

/// Reads the sixteen-digit field at `off`; `None` exactly when some
/// character in the field is no hexadecimal digit.
fn parse16(blob: &str, off: usize) -> (r: Option<u64>)
    requires
        blob.is_ascii(),
        off + 16 <= blob@.len(),
        off + 16 <= usize::MAX,
    ensures
        r is Some <==> all_hex(blob@.subrange(off as int, off as int + 16)),
        r is Some ==> r.unwrap() == parse_u64_at(blob@, off as int),
{
    let ghost field = blob@.subrange(off as int, off as int + 16);
    let mut acc: u64 = 0;
    let mut k: usize = 0;
    proof {
        assert(field.subrange(0, 0) =~= Seq::<char>::empty());
        lemma_pow16_increases(0, 16);
    }
    while k < 16
        invariant
            k <= 16,
            blob.is_ascii(),
            off + 16 <= blob@.len(),
            off + 16 <= usize::MAX,
            field == blob@.subrange(off as int, off as int + 16),
            all_hex(field.subrange(0, k as int)),
            acc == hex_parse(field.subrange(0, k as int)),
            acc < pow16(k as nat),
        decreases 16 - k,
    {
        let b = blob.get_ascii(off + k);
        proof {
            assert(blob@[off as int + k as int] == field[k as int]);
        }
        let v: u64 = if b >= 48 && b <= 57 {
            (b - 48) as u64
        } else if b >= 97 && b <= 102 {
            (b - 87) as u64
        } else {
            16
        };
        proof {
            let c = field[k as int];
            assert(c as u8 == b);
            assert(c as int <= 127) by {
                assert(vstd::utf8::is_ascii_chars(blob@));
                assert('\0' <= blob@[off as int + k as int] <= '\u{7f}');
            }
            assert(c as int == b as int);
            assert(v == hex_val(c) || (v == 16 && hex_val(c) == 16));
        }
        if v >= 16 {
            proof {
                assert(!is_hex_char(field[k as int]));
                assert(!all_hex(field));
            }
            return None;
        }
        proof {
            lemma_pow16_increases(k as nat + 1, 16);
            lemma_pow16_16();
            assert(field.subrange(0, k as int + 1).drop_last() =~= field.subrange(0, k as int));
            assert(field.subrange(0, k as int + 1).last() == field[k as int]);
        }
        acc = acc * 16 + v;
        k = k + 1;
    }
    proof {
        assert(field.subrange(0, 16) =~= field);
    }
    Some(acc)
}

/// Deserializes a sketch blob. Succeeds exactly on the well-shaped blobs;
/// the sketch returned is well formed and carries precisely the fields the
/// blob spells out.
pub fn deserialize_sketch(blob: &str) -> (r: Option<Sketch>)
    ensures
        r is Some <==> blob_ok(blob@),
        r is Some ==> {
            let k = r.unwrap();
            &&& k.wf()
            &&& k.compression == parse_u64_at(blob@, 0)
            &&& k.total == sum_weights(parsed_cents(blob@))
            &&& k.centroids@ == parsed_cents(blob@)
        },
{
    if !blob.is_ascii() {
        proof {
            if all_hex(blob@) {
                assert forall|i: int| 0 <= i < blob@.len() implies '\0' <= #[trigger] blob@[i]
                    <= '\u{7f}' by {
                    assert(is_hex_char(blob@[i]));
                }
                assert(vstd::utf8::is_ascii_chars(blob@));
            }
        }
        return None;
    }
    let len = blob.unicode_len();
    if len < 32 || (len - 32) % 32 != 0 {
        return None;
    }
    let n: usize = (len - 32) / 32;
    let compression = match parse16(blob, 0) {
        Some(v) => v,
        None => {
            proof {
                assert(!all_hex(blob@)) by {
                    let f = blob@.subrange(0, 16);
                    assert(!all_hex(f));
                    let i = choose|i: int| 0 <= i < f.len() && !is_hex_char(#[trigger] f[i]);
                    assert(!is_hex_char(blob@[i]));
                }
            }
            return None;
        },
    };
    if compression < 1 || compression > 0x10_0000 {
        return None;
    }
    let count = match parse16(blob, 16) {
        Some(v) => v,
        None => {
            proof {
                assert(!all_hex(blob@)) by {
                    let f = blob@.subrange(16, 32);
                    assert(!all_hex(f));
                    let i = choose|i: int| 0 <= i < f.len() && !is_hex_char(#[trigger] f[i]);
                    assert(!is_hex_char(blob@[16 + i]));
                }
            }
            return None;
        },
    };
    if count != n as u64 {
        return None;
    }
    if count > 6 * compression {
        proof {
            lemma_parse_len(blob@, 32, ((blob@.len() - 32) / 32) as nat);
        }
        return None;
    }
    let mut cs: Vec<Centroid> = Vec::new();
    let mut total: u64 = 0;
    let mut j: usize = 0;
    proof {
        assert(cs@ =~= parse_centroids(blob@, 32, 0));
    }
    while j < n
        invariant
            j <= n,
            blob.is_ascii(),
            len == blob@.len(),
            len >= 32,
            n == (len - 32) / 32,
            (len - 32) % 32 == 0,
            cs@ == parse_centroids(blob@, 32, j as nat),
            cs@.len() == j,
            mean_sorted(cs@),
            weights_positive(cs@),
            total == sum_weights(cs@),
            all_hex_blocks(blob@, j as int),
        decreases n - j,
    {
        proof {
            assert(32 + 32 * (j as int) + 32 <= len) by {
                assert(32 * (j as int) + 32 <= 32 * (n as int)) by (nonlinear_arith)
                    requires
                        j < n,
                ;
                assert(32 * (n as int) == len - 32) by {
                    vstd::arithmetic::div_mod::lemma_fundamental_div_mod(len - 32, 32);
                }
            }
        }
        let off: usize = 32 + 32 * j;
        let mean = match parse16(blob, off) {
            Some(v) => v,
            None => {
                proof {
                    bad_field_means_bad_blob(blob@, off as int);
                }
                return None;
            },
        };
        let weight = match parse16(blob, off + 16) {
            Some(v) => v,
            None => {
                proof {
                    bad_field_means_bad_blob(blob@, off as int + 16);
                }
                return None;
            },
        };
        proof {
            assert(cent_at(blob@, off as int) == Centroid { mean, weight });
            // The two fields just read extend the run of hexadecimal blocks.
            assert(blob@.subrange(32 + 16 * (2 * (j as int)), 32 + 16 * (2 * (j as int)) + 16)
                =~= blob@.subrange(off as int, off as int + 16));
            assert(blob@.subrange(
                32 + 16 * (2 * (j as int) + 1),
                32 + 16 * (2 * (j as int) + 1) + 16,
            ) =~= blob@.subrange(off as int + 16, off as int + 32));
            assert(all_hex_blocks(blob@, j as int + 1)) by {
                assert forall|m: int|
                    0 <= m < 2 * (j as int + 1) && 32 + 16 * m + 16 <= blob@.len() implies all_hex(
                    #[trigger] blob@.subrange(32 + 16 * m, 32 + 16 * m + 16),
                ) by {
                    if m < 2 * (j as int) {
                    } else if m == 2 * (j as int) {
                        assert(all_hex(blob@.subrange(off as int, off as int + 16)));
                    } else {
                        assert(m == 2 * (j as int) + 1);
                        assert(all_hex(blob@.subrange(off as int + 16, off as int + 32)));
                    }
                }
            }
        }
        if weight < 1 {
            proof {
                assert(parse_centroids(blob@, 32, j as nat + 1) == cs@.push(
                    Centroid { mean, weight },
                ));
                not_positive_somewhere(blob@, j as nat + 1, ((len - 32) / 32) as nat);
            }
            return None;
        }
        if cs.len() > 0 && mean < cs[cs.len() - 1].mean {
            proof {
                assert(parse_centroids(blob@, 32, j as nat + 1) == cs@.push(
                    Centroid { mean, weight },
                ));
                not_sorted_somewhere(blob@, j as nat + 1, ((len - 32) / 32) as nat);
            }
            return None;
        }
        if weight > u64::MAX - total {
            proof {
                let c = Centroid { mean, weight };
                let post = cs@.push(c);
                assert(parse_centroids(blob@, 32, j as nat + 1) == post);
                assert(post.drop_last() =~= cs@);
                assert(sum_weights(post) == total + weight);
                assert forall|p: int| 0 <= p < post.len() implies (#[trigger] post[p]).weight
                    >= 1 by {
                    if p < post.len() - 1 {
                        assert(post[p] == cs@[p]);
                    }
                }
                overweight_somewhere(blob@, j as nat + 1, ((len - 32) / 32) as nat);
            }
            return None;
        }
        proof {
            let c = Centroid { mean, weight };
            let post = cs@.push(c);
            assert(parse_centroids(blob@, 32, j as nat + 1) == post);
            assert(post.drop_last() =~= cs@);
            assert(sum_weights(post) == sum_weights(cs@) + weight);
            assert(mean_sorted(post)) by {
                if cs@.len() > 0 {
                    assert forall|p: int, q: int| 0 <= p < q < post.len() implies (
                    #[trigger] post[p]).mean <= (#[trigger] post[q]).mean by {
                        if q < post.len() - 1 {
                            assert(post[p] == cs@[p] && post[q] == cs@[q]);
                        } else {
                            if p < post.len() - 1 {
                                assert(post[p] == cs@[p]);
                                assert(cs@[p].mean <= cs@[cs@.len() - 1].mean);
                            }
                        }
                    }
                }
            }
        }
        cs.push(Centroid { mean, weight });
        total = total + weight;
        j = j + 1;
    }
    proof {
        assert(cs@ == parsed_cents(blob@));
        assert(all_hex(blob@)) by {
            all_blocks_means_all_hex(blob@);
        }
        assert(blob_ok(blob@));
    }
    Some(Sketch { compression, total, centroids: cs })
}

/// The first `2 + 2k` sixteen-digit fields of the blob are hexadecimal.
pub open spec fn all_hex_blocks(s: Seq<char>, k: int) -> bool {
    &&& all_hex(s.subrange(0, 16))
    &&& all_hex(s.subrange(16, 32))
    &&& forall|m: int|
        0 <= m < 2 * k && 32 + 16 * m + 16 <= s.len() ==> all_hex(
            #[trigger] s.subrange(32 + 16 * m, 32 + 16 * m + 16),
        )
}

proof fn bad_field_means_bad_blob(s: Seq<char>, off: int)
    requires
        0 <= off,
        off + 16 <= s.len(),
        !all_hex(s.subrange(off, off + 16)),
    ensures
        !all_hex(s),
{
    let f = s.subrange(off, off + 16);
    let i = choose|i: int| 0 <= i < f.len() && !is_hex_char(#[trigger] f[i]);
    assert(!is_hex_char(s[off + i]));
}

proof fn not_positive_somewhere(s: Seq<char>, k: nat, n: nat)
    requires
        k <= n,
        k >= 1,
        parse_centroids(s, 32, k).last().weight < 1,
    ensures
        !weights_positive(parse_centroids(s, 32, n)),
{
    lemma_parse_prefix(s, k, n);
    let whole = parse_centroids(s, 32, n);
    let pre = parse_centroids(s, 32, k);
    lemma_parse_len(s, 32, k);
    lemma_parse_len(s, 32, n);
    assert(whole[k - 1] == pre[k - 1]);
    assert(whole[k - 1].weight < 1);
}

proof fn not_sorted_somewhere(s: Seq<char>, k: nat, n: nat)
    requires
        k <= n,
        k >= 2,
        parse_centroids(s, 32, k).last().mean < parse_centroids(s, 32, k)[k - 2].mean,
    ensures
        !mean_sorted(parse_centroids(s, 32, n)),
{
    lemma_parse_prefix(s, k, n);
    let whole = parse_centroids(s, 32, n);
    let pre = parse_centroids(s, 32, k);
    lemma_parse_len(s, 32, k);
    lemma_parse_len(s, 32, n);
    assert(whole[k - 1] == pre[k - 1]);
    assert(whole[k - 2] == pre[k - 2]);
}

proof fn overweight_somewhere(s: Seq<char>, k: nat, n: nat)
    requires
        k <= n,
        sum_weights(parse_centroids(s, 32, k)) > u64::MAX,
        weights_positive(parse_centroids(s, 32, k)),
    ensures
        !(weights_positive(parse_centroids(s, 32, n)) && sum_weights(parse_centroids(s, 32, n))
            <= u64::MAX),
{
    if weights_positive(parse_centroids(s, 32, n)) {
        lemma_parse_prefix(s, k, n);
        let whole = parse_centroids(s, 32, n);
        let pre = parse_centroids(s, 32, k);
        lemma_parse_len(s, 32, k);
        lemma_parse_len(s, 32, n);
        assert(pre =~= whole.take(k as int));
        crate::sketch::lemma_sum_split(whole, k as int);
        assert(weights_positive(whole.skip(k as int))) by {
            assert forall|i: int| 0 <= i < whole.skip(k as int).len() implies (
            #[trigger] whole.skip(k as int)[i]).weight >= 1 by {
                assert(whole.skip(k as int)[i] == whole[k + i]);
            }
        }
        crate::sketch::lemma_sum_nonneg(whole.skip(k as int));
    }
}

/// A shorter parse is a prefix of a longer one.
proof fn lemma_parse_prefix(s: Seq<char>, k: nat, n: nat)
    requires
        k <= n,
    ensures
        parse_centroids(s, 32, k) =~= parse_centroids(s, 32, n).take(k as int),
    decreases n,
{
    lemma_parse_len(s, 32, k);
    lemma_parse_len(s, 32, n);
    if n > k {
        lemma_parse_prefix(s, k, (n - 1) as nat);
        assert(parse_centroids(s, 32, n).take(k as int) =~= parse_centroids(
            s,
            32,
            (n - 1) as nat,
        ).take(k as int));
    } else {
        assert(parse_centroids(s, 32, n).take(k as int) =~= parse_centroids(s, 32, n));
    }
}

proof fn lemma_parse_len(s: Seq<char>, off: int, k: nat)
    ensures
        parse_centroids(s, off, k).len() == k,
    decreases k,
{
    if k > 0 {
        lemma_parse_len(s, off, (k - 1) as nat);
    }
}

/// Hexadecimal fields over the whole blob amount to the blob being
/// hexadecimal throughout.
proof fn all_blocks_means_all_hex(s: Seq<char>)
    requires
        s.len() >= 32,
        (s.len() - 32) % 32 == 0,
        all_hex_blocks(s, (s.len() - 32) / 32),
    ensures
        all_hex(s),
{
    let n = (s.len() - 32) / 32;
    vstd::arithmetic::div_mod::lemma_fundamental_div_mod(s.len() - 32, 32);
    assert forall|i: int| 0 <= i < s.len() implies is_hex_char(#[trigger] s[i]) by {
        if i < 16 {
            assert(s.subrange(0, 16)[i] == s[i]);
            assert(is_hex_char(s.subrange(0, 16)[i]));
        } else if i < 32 {
            assert(s.subrange(16, 32)[i - 16] == s[i]);
            assert(is_hex_char(s.subrange(16, 32)[i - 16]));
        } else {
            let m = (i - 32) / 16;
            vstd::arithmetic::div_mod::lemma_fundamental_div_mod(i - 32, 16);
            assert(0 <= m < 2 * n) by {
                assert(16 * m <= i - 32 < 16 * (m + 1));
                assert(i < 32 + 32 * n);
                assert(16 * m < 32 * n);
                assert(m < 2 * n) by (nonlinear_arith)
                    requires
                        16 * m < 32 * n,
                ;
            }
            assert(32 + 16 * m + 16 <= s.len()) by {
                assert(16 * m + 16 <= 32 * n) by (nonlinear_arith)
                    requires
                        m < 2 * n,
                ;
            }
            let f = s.subrange(32 + 16 * m, 32 + 16 * m + 16);
            assert(all_hex(f));
            assert(f[i - 32 - 16 * m] == s[i]);
            assert(is_hex_char(f[i - 32 - 16 * m]));
        }
    }
}

/// The rendered centroid run is hexadecimal and 32 characters per centroid.
proof fn lemma_render_cents_shape(cs: Seq<Centroid>)
    ensures
        render_cents(cs).len() == 32 * cs.len(),
        all_hex(render_cents(cs)),
    decreases cs.len(),
{
    lemma_pow16_16();
    if cs.len() > 0 {
        lemma_render_cents_shape(cs.drop_last());
        lemma_hex_round_trip(cs.last().mean as nat, 16);
        lemma_hex_round_trip(cs.last().weight as nat, 16);
        let r = render_cents(cs);
        let a = render_cents(cs.drop_last());
        let hm = hex_of(cs.last().mean as nat, 16);
        let hw = hex_of(cs.last().weight as nat, 16);
        assert forall|i: int| 0 <= i < r.len() implies is_hex_char(#[trigger] r[i]) by {
            if i < a.len() {
                assert(r[i] == a[i]);
            } else if i < a.len() + 16 {
                assert(r[i] == hm[i - a.len()]);
            } else {
                assert(r[i] == hw[i - a.len() - 16]);
            }
        }
    }
}

/// Parsing undoes rendering of a centroid run embedded in a larger text.
proof fn lemma_parse_render_cents(w: Seq<char>, off: int, cs: Seq<Centroid>)
    requires
        0 <= off,
        off + 32 * cs.len() <= w.len(),
        w.subrange(off, off + 32 * cs.len()) == render_cents(cs),
    ensures
        parse_centroids(w, off, cs.len()) =~= cs,
    decreases cs.len(),
{
    if cs.len() > 0 {
        let k = cs.len() as int;
        let pre = cs.drop_last();
        lemma_render_cents_shape(pre);
        lemma_render_cents_shape(cs);
        let r = render_cents(cs);
        let a = render_cents(pre);
        let hm = hex_of(cs.last().mean as nat, 16);
        let hw = hex_of(cs.last().weight as nat, 16);
        lemma_pow16_16();
        lemma_hex_round_trip(cs.last().mean as nat, 16);
        lemma_hex_round_trip(cs.last().weight as nat, 16);
        assert(r == a + hm + hw);
        assert(a.len() == 32 * (k - 1));
        assert forall|i: int| 0 <= i < 16 implies r[32 * (k - 1) + i] == hm[i] by {
            let j = 32 * (k - 1) + i;
            assert(r == a + hm + hw);
            assert(a.len() == 32 * pre.len());
            assert(pre.len() == k - 1);
            assert(a.len() <= j < (a + hm).len());
            assert((a + hm).add(hw)[j] == (a + hm)[j]);
            assert(a.add(hm)[j] == hm[j - a.len()]);
            assert(j - a.len() == i);
        }
        assert forall|i: int| 0 <= i < 16 implies r[32 * (k - 1) + 16 + i] == hw[i] by {
            let j = 32 * (k - 1) + 16 + i;
            assert(r == a + hm + hw);
            assert(a.len() == 32 * pre.len());
            assert(pre.len() == k - 1);
            assert((a + hm).len() <= j < (a + hm + hw).len());
            assert((a + hm).add(hw)[j] == hw[j - (a + hm).len()]);
            assert(j - (a + hm).len() == i);
        }
        assert(w.subrange(off, off + 32 * pre.len()) =~= a) by {
            assert forall|i: int| 0 <= i < 32 * (k - 1) implies w.subrange(
                off,
                off + 32 * (k - 1),
            )[i] == a[i] by {
                assert(w.subrange(off, off + 32 * k)[i] == w[off + i]);
                assert(r[i] == a[i]);
            }
        }
        lemma_parse_render_cents(w, off, pre);
        assert(w.subrange(off + 32 * (k - 1), off + 32 * (k - 1) + 16) =~= hm) by {
            assert forall|i: int| 0 <= i < 16 implies w.subrange(
                off + 32 * (k - 1),
                off + 32 * (k - 1) + 16,
            )[i] == hm[i] by {
                assert(w.subrange(off, off + 32 * k)[32 * (k - 1) + i] == w[off + 32 * (k - 1)
                    + i]);
                assert(r[32 * (k - 1) + i] == hm[i]);
            }
        }
        assert(w.subrange(off + 32 * (k - 1) + 16, off + 32 * (k - 1) + 32) =~= hw) by {
            assert forall|i: int| 0 <= i < 16 implies w.subrange(
                off + 32 * (k - 1) + 16,
                off + 32 * (k - 1) + 32,
            )[i] == hw[i] by {
                assert(w.subrange(off, off + 32 * k)[32 * (k - 1) + 16 + i] == w[off + 32 * (k
                    - 1) + 16 + i]);
                assert(r[32 * (k - 1) + 16 + i] == hw[i]);
            }
        }
        lemma_pow16_16();
        lemma_hex_round_trip(cs.last().mean as nat, 16);
        lemma_hex_round_trip(cs.last().weight as nat, 16);
        assert(parse_u64_at(w, off + 32 * (k - 1)) == cs.last().mean);
        assert(parse_u64_at(w, off + 32 * (k - 1) + 16) == cs.last().weight);
        assert(cent_at(w, off + 32 * (k - 1)) == cs.last());
        assert(parse_centroids(w, off, cs.len()) == parse_centroids(w, off, (cs.len() - 1) as nat)
            .push(cent_at(w, off + 32 * (k - 1))));
    }
}

/// Round trip: the rendered form of any well-formed sketch is a valid blob
/// and parses back to the very same compression factor, centroid sequence
/// and total weight — so a persisted and reloaded snapshot answers every
/// quantile query exactly as the sketch that was stored.
pub proof fn lemma_codec_round_trip(s: Sketch)
    requires
        s.wf(),
    ensures
        blob_ok(render_sketch(s)),
        parse_u64_at(render_sketch(s), 0) == s.compression,
        parsed_cents(render_sketch(s)) == s.centroids@,
        sum_weights(parsed_cents(render_sketch(s))) == s.total,
{
    lemma_pow16_16();
    let r = render_sketch(s);
    let n = s.centroids@.len() as int;
    let hc = hex_of(s.compression as nat, 16);
    let hn = hex_of(s.centroids@.len() as nat, 16);
    let body = render_cents(s.centroids@);
    lemma_hex_round_trip(s.compression as nat, 16);
    lemma_hex_round_trip(s.centroids@.len() as nat, 16);
    lemma_render_cents_shape(s.centroids@);
    assert(r.len() == 32 + 32 * n);
    assert(r.subrange(0, 16) =~= hc);
    assert(r.subrange(16, 32) =~= hn);
    assert(parse_u64_at(r, 0) == s.compression);
    assert(parse_u64_at(r, 16) == n);
    vstd::arithmetic::div_mod::lemma_fundamental_div_mod_converse(32 * n, 32, n, 0);
    assert((r.len() - 32) / 32 == n);
    assert((r.len() - 32) % 32 == 0);
    assert(r.subrange(32, 32 + 32 * n) =~= body);
    lemma_parse_render_cents(r, 32, s.centroids@);
    assert(parsed_cents(r) =~= s.centroids@);
    assert(all_hex(r)) by {
        assert forall|i: int| 0 <= i < r.len() implies is_hex_char(#[trigger] r[i]) by {
            if i < 16 {
                assert(r[i] == hc[i]);
            } else if i < 32 {
                assert(r[i] == hn[i - 16]);
            } else {
                assert(r[i] == body[i - 32]);
            }
        }
    }
}

} // verus!
