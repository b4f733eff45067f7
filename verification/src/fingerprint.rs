//! The outbound cache key: a stable fingerprint of an outgoing
//! request.
//!
//! The fingerprint is the lower-case hex digest of a SHA-256 over a
//! canonical serialization of the request: method upper-cased,
//! authority lower-cased, path percent-decoded, query pairs sorted,
//! a configured subset of headers lower-cased and sorted, and a
//! SHA-256 of the body.  The canonical form — and so the key — is
//! part of the cache's external contract.

use vstd::prelude::*;
use crate::bytestr::{
    append_bytes, eq_bytes, hex_of, lemma_sort_pairs_permutation, lower_bytes, pair_views,
    pct_decode, percent_decode, sort_pair_vec, sort_pairs, to_ascii_lower, to_ascii_upper,
    to_hex_lower, upper_bytes, views,
};
use crate::dispatch::{parse_query, query_pairs_of};
use crate::http::OutboundRequest;

verus! {

/// The SHA-256 digest of a byte string: 32 bytes, a function of the
/// input alone.
pub uninterp spec fn sha256_of(data: Seq<u8>) -> Seq<u8>;

/// Relies on the sha2 crate's SHA-256: the digest is 32 bytes and
/// depends on the input bytes alone.
#[verifier::external_body]
fn digest_sha256(data: &[u8]) -> (r: Vec<u8>)
    ensures
        r@ == sha256_of(data@),
        r@.len() == 32,
{
    <sha2::Sha256 as sha2::Digest>::digest(data).to_vec()
}

/// Which request headers take part in the fingerprint, by lower-case
/// name.
#[derive(Debug, Clone)]
pub struct FingerprintConfig {
    pub header_names: Vec<Vec<u8>>,
}

/// The fingerprinted headers: those whose lower-cased name is in the
/// configured set, with the lower-cased name, in header order.
pub open spec fn selected_headers(
    hs: Seq<(Seq<u8>, Seq<u8>)>,
    names: Seq<Seq<u8>>,
) -> Seq<(Seq<u8>, Seq<u8>)>
    decreases hs.len(),
{
    if hs.len() == 0 {
        Seq::empty()
    } else {
        let rest = selected_headers(hs.drop_first(), names);
        let low = lower_bytes(hs[0].0);
        if names.contains(low) {
            seq![(low, hs[0].1)] + rest
        } else {
            rest
        }
    }
}

/// Pairs rendered one per line as `key=value`.
pub open spec fn join_pairs(ps: Seq<(Seq<u8>, Seq<u8>)>) -> Seq<u8>
    decreases ps.len(),
{
    if ps.len() == 0 {
        Seq::empty()
    } else {
        ps[0].0 + seq!['=' as u8] + ps[0].1 + seq!['\n' as u8] + join_pairs(ps.drop_first())
    }
}

/// The canonical serialization the fingerprint hashes: each normalized
/// field on a line of its own, then the body's digest.
pub open spec fn canonical_of(req: OutboundRequest, names: Seq<Seq<u8>>) -> Seq<u8> {
    upper_bytes(req.method@) + seq!['\n' as u8] + req.scheme@ + seq!['\n' as u8] + lower_bytes(
        req.authority@,
    ) + seq!['\n' as u8] + pct_decode(req.path@) + seq!['\n' as u8] + join_pairs(
        sort_pairs(query_pairs_of(req.query@)),
    ) + seq!['\n' as u8] + join_pairs(
        sort_pairs(selected_headers(pair_views(req.headers@), names)),
    ) + seq!['\n' as u8] + sha256_of(req.body@)
}

/// The fingerprint: lower-case hex of the SHA-256 of the canonical
/// serialization.
pub open spec fn fingerprint_of(req: OutboundRequest, names: Seq<Seq<u8>>) -> Seq<u8> {
    hex_of(sha256_of(canonical_of(req, names)))
}

/// Collect the fingerprinted headers of a request.
fn select_headers(headers: &Vec<(Vec<u8>, Vec<u8>)>, names: &Vec<Vec<u8>>) -> (r: Vec<
    (Vec<u8>, Vec<u8>),
>)
    ensures
        pair_views(r@) == selected_headers(pair_views(headers@), views(names@)),
{
    let ghost hs = pair_views(headers@);
    let ghost nm = views(names@);
    let mut out: Vec<(Vec<u8>, Vec<u8>)> = Vec::new();
    let mut i: usize = 0;
    proof {
        assert(hs.skip(0) =~= hs);
    }
    while i < headers.len()
        invariant
            hs == pair_views(headers@),
            nm == views(names@),
            i <= headers@.len(),
            selected_headers(hs, nm) == pair_views(out@) + selected_headers(
                hs.skip(i as int),
                nm,
            ),
        decreases headers@.len() - i,
    {
        let h = &headers[i];
        let ghost prev = pair_views(out@);
        proof {
            assert(hs.skip(i as int)[0] == hs[i as int]);
            assert(hs.skip(i as int).drop_first() =~= hs.skip(i + 1));
        }
        let low = to_ascii_lower(h.0.as_slice());
        if name_list_contains(names, low.as_slice()) {
            let value = crate::bytestr::slice_to_vec_u8(h.1.as_slice());
            out.push((low, value));
            proof {
                assert(pair_views(out@) =~= prev.push((lower_bytes(hs[i as int].0), hs[i as int].1)));
                assert(prev + selected_headers(hs.skip(i as int), nm) =~= pair_views(out@)
                    + selected_headers(hs.skip(i + 1), nm));
            }
        }
        i = i + 1;
    }
    proof {
        assert(hs.skip(hs.len() as int) =~= Seq::<(Seq<u8>, Seq<u8>)>::empty());
        assert(pair_views(out@) + selected_headers(hs.skip(hs.len() as int), nm) =~= pair_views(
            out@,
        ));
    }
    out
}

fn name_list_contains(names: &Vec<Vec<u8>>, x: &[u8]) -> (r: bool)
    ensures
        r == views(names@).contains(x@),
{
    let mut i: usize = 0;
    while i < names.len()
        invariant
            i <= names@.len(),
            forall|j: int| 0 <= j < i ==> views(names@)[j] != x@,
        decreases names@.len() - i,
    {
        if eq_bytes(names[i].as_slice(), x) {
            proof {
                assert(views(names@)[i as int] == x@);
            }
            return true;
        }
        i = i + 1;
    }
    false
}

/// Render sorted pairs, one `key=value` line each.
fn join_pair_list(ps: &Vec<(Vec<u8>, Vec<u8>)>) -> (r: Vec<u8>)
    ensures
        r@ == join_pairs(pair_views(ps@)),
{
    let ghost pv = pair_views(ps@);
    let mut out: Vec<u8> = Vec::new();
    let mut i: usize = 0;
    proof {
        assert(pv.skip(0) =~= pv);
    }
    while i < ps.len()
        invariant
            pv == pair_views(ps@),
            i <= ps@.len(),
            join_pairs(pv) == out@ + join_pairs(pv.skip(i as int)),
        decreases ps@.len() - i,
    {
        let p = &ps[i];
        let ghost prev = out@;
        proof {
            assert(pv.skip(i as int)[0] == pv[i as int]);
            assert(pv.skip(i as int).drop_first() =~= pv.skip(i + 1));
        }
        append_bytes(&mut out, p.0.as_slice());
        out.push('=' as u8);
        append_bytes(&mut out, p.1.as_slice());
        out.push('\n' as u8);
        proof {
            assert(out@ =~= prev + (pv[i as int].0 + seq!['=' as u8] + pv[i as int].1 + seq![
                '\n' as u8,
            ]));
            assert(prev + join_pairs(pv.skip(i as int)) =~= out@ + join_pairs(pv.skip(i + 1)));
        }
        i = i + 1;
    }
    proof {
        assert(pv.skip(pv.len() as int) =~= Seq::<(Seq<u8>, Seq<u8>)>::empty());
        assert(out@ + join_pairs(pv.skip(pv.len() as int)) =~= out@);
    }
    out
}

/// Compute the fingerprint of an outbound request under the given
/// header configuration.
pub fn fingerprint(req: &OutboundRequest, cfg: &FingerprintConfig) -> (r: Vec<u8>)
    ensures
        r@ == fingerprint_of(*req, views(cfg.header_names@)),
{
    let mut buf: Vec<u8> = Vec::new();
    let m = to_ascii_upper(req.method.as_slice());
    append_bytes(&mut buf, m.as_slice());
    buf.push('\n' as u8);
    append_bytes(&mut buf, req.scheme.as_slice());
    buf.push('\n' as u8);
    let a = to_ascii_lower(req.authority.as_slice());
    append_bytes(&mut buf, a.as_slice());
    buf.push('\n' as u8);
    let p = percent_decode(req.path.as_slice());
    append_bytes(&mut buf, p.as_slice());
    buf.push('\n' as u8);
    let q = parse_query(req.query.as_slice());
    let q_sorted = sort_pair_vec(q);
    let q_join = join_pair_list(&q_sorted);
    append_bytes(&mut buf, q_join.as_slice());
    buf.push('\n' as u8);
    let sel = select_headers(&req.headers, &cfg.header_names);
    let sel_sorted = sort_pair_vec(sel);
    let sel_join = join_pair_list(&sel_sorted);
    append_bytes(&mut buf, sel_join.as_slice());
    buf.push('\n' as u8);
    let body_digest = digest_sha256(req.body.as_slice());
    append_bytes(&mut buf, body_digest.as_slice());
    proof {
        assert(buf@ =~= canonical_of(*req, views(cfg.header_names@)));
    }
    let digest = digest_sha256(buf.as_slice());
    to_hex_lower(digest.as_slice())
}

/// Removing the header at index `k` removes exactly its contribution
/// to the fingerprinted selection.
proof fn lemma_selected_remove(hs: Seq<(Seq<u8>, Seq<u8>)>, names: Seq<Seq<u8>>, k: int)
    requires
        0 <= k < hs.len(),
    ensures
        selected_headers(hs, names).to_multiset() == if names.contains(lower_bytes(hs[k].0)) {
            selected_headers(hs.remove(k), names).to_multiset().insert(
                (lower_bytes(hs[k].0), hs[k].1),
            )
        } else {
            selected_headers(hs.remove(k), names).to_multiset()
        },
    decreases k,
{
    broadcast use vstd::multiset::group_multiset_axioms;

    if k == 0 {
        assert(hs.remove(0) =~= hs.drop_first());
        if names.contains(lower_bytes(hs[0].0)) {
            let x = (lower_bytes(hs[0].0), hs[0].1);
            let rest = selected_headers(hs.drop_first(), names);
            assert(selected_headers(hs, names) =~= rest.insert(0, x));
            vstd::seq_lib::to_multiset_insert(rest, 0, x);
        }
    } else {
        let rest = hs.drop_first();
        lemma_selected_remove(rest, names, k - 1);
        assert(hs.remove(k).drop_first() =~= rest.remove(k - 1));
        assert(hs.remove(k)[0] == hs[0]);
        assert(rest[k - 1] == hs[k]);
        let down = selected_headers(rest, names);
        let down_cut = selected_headers(rest.remove(k - 1), names);
        if names.contains(lower_bytes(hs[0].0)) {
            let c = (lower_bytes(hs[0].0), hs[0].1);
            assert(selected_headers(hs, names) =~= down.insert(0, c));
            assert(selected_headers(hs.remove(k), names) =~= down_cut.insert(0, c));
            vstd::seq_lib::to_multiset_insert(down, 0, c);
            vstd::seq_lib::to_multiset_insert(down_cut, 0, c);
            if names.contains(lower_bytes(hs[k].0)) {
                let x = (lower_bytes(hs[k].0), hs[k].1);
                assert(down.to_multiset() == down_cut.to_multiset().insert(x));
                assert(down_cut.to_multiset().insert(x).insert(c)
                    =~= down_cut.to_multiset().insert(c).insert(x));
            }
        } else {
            assert(selected_headers(hs, names) == down);
            assert(selected_headers(hs.remove(k), names) == down_cut);
        }
    }
}

/// Reordering the headers only reorders the fingerprinted selection.
pub proof fn lemma_selected_headers_permutation(
    h1: Seq<(Seq<u8>, Seq<u8>)>,
    h2: Seq<(Seq<u8>, Seq<u8>)>,
    names: Seq<Seq<u8>>,
)
    requires
        h1.to_multiset() == h2.to_multiset(),
    ensures
        selected_headers(h1, names).to_multiset() == selected_headers(h2, names).to_multiset(),
    decreases h1.len(),
{
    broadcast use vstd::multiset::group_multiset_axioms;
    broadcast use vstd::seq_lib::group_to_multiset_ensures;

    if h1.len() == 0 {
        assert(h1.to_multiset().len() == 0);
        assert(h2.to_multiset().len() == h2.len());
        assert(h2.len() == 0);
        assert(h2 =~= Seq::<(Seq<u8>, Seq<u8>)>::empty());
        assert(h1 =~= Seq::<(Seq<u8>, Seq<u8>)>::empty());
    } else {
        let x = h1[0];
        assert(h1.contains(x));
        assert(h1.to_multiset().count(x) > 0);
        assert(h2.to_multiset().count(x) > 0);
        assert(h2.contains(x));
        let k = choose|k: int| 0 <= k < h2.len() && h2[k] == x;
        assert(h1.remove(0).to_multiset() == h1.to_multiset().remove(x));
        assert(h2.remove(k).to_multiset() == h2.to_multiset().remove(x));
        assert(h1.remove(0) =~= h1.drop_first());
        lemma_selected_headers_permutation(h1.drop_first(), h2.remove(k), names);
        lemma_selected_remove(h2, names, k);
        lemma_selected_remove(h1, names, 0);
        assert(h1.remove(0) =~= h1.drop_first());
    }
}

/// Round trip of the cache fingerprint: two requests that differ only
/// in the order of their headers, the order of their query pairs, the
/// case of method or authority, or in equivalent percent-encodings of
/// the path, have equal fingerprints.
pub proof fn lemma_fingerprint_normalizes(
    a: OutboundRequest,
    b: OutboundRequest,
    names: Seq<Seq<u8>>,
)
    requires
        upper_bytes(a.method@) == upper_bytes(b.method@),
        a.scheme@ == b.scheme@,
        lower_bytes(a.authority@) == lower_bytes(b.authority@),
        pct_decode(a.path@) == pct_decode(b.path@),
        query_pairs_of(a.query@).to_multiset() == query_pairs_of(b.query@).to_multiset(),
        pair_views(a.headers@).to_multiset() == pair_views(b.headers@).to_multiset(),
        a.body@ == b.body@,
    ensures
        fingerprint_of(a, names) == fingerprint_of(b, names),
{
    lemma_sort_pairs_permutation(query_pairs_of(a.query@), query_pairs_of(b.query@));
    lemma_selected_headers_permutation(pair_views(a.headers@), pair_views(b.headers@), names);
    lemma_sort_pairs_permutation(
        selected_headers(pair_views(a.headers@), names),
        selected_headers(pair_views(b.headers@), names),
    );
    assert(canonical_of(a, names) == canonical_of(b, names));
}

} // verus!
