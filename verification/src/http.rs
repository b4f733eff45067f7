//! Plain-value model of HTTP messages as the runtime logic reads them:
//! methods, authorities, paths and queries as byte strings, headers as
//! ordered (name, value) pairs, bodies as collected bytes.

use vstd::prelude::*;
use crate::bytestr::{eq_bytes_ci, lower_bytes, pair_views};

verus! {

/// An outbound request, reduced to the fields the cache and the host
/// adapter read.  The query is kept as the raw (still percent-encoded)
/// query string; the fingerprint normalizes it itself.
#[derive(Debug, Clone)]
pub struct OutboundRequest {
    pub method: Vec<u8>,
    pub scheme: Vec<u8>,
    pub authority: Vec<u8>,
    pub path: Vec<u8>,
    pub query: Vec<u8>,
    pub headers: Vec<(Vec<u8>, Vec<u8>)>,
    pub body: Vec<u8>,
}

/// A collected response: status, headers, and the full body bytes.
#[derive(Debug, Clone)]
pub struct OutboundResponse {
    pub status: u16,
    pub headers: Vec<(Vec<u8>, Vec<u8>)>,
    pub body: Vec<u8>,
}

/// Header names compare case-insensitively.
pub open spec fn name_matches(name: Seq<u8>, wanted: Seq<u8>) -> bool {
    lower_bytes(name) == lower_bytes(wanted)
}

/// Some header has this name.
pub open spec fn has_header(hs: Seq<(Seq<u8>, Seq<u8>)>, name: Seq<u8>) -> bool {
    exists|i: int| 0 <= i < hs.len() && name_matches((#[trigger] hs[i]).0, name)
}

/// Value of the first header with this name.
pub open spec fn first_header(hs: Seq<(Seq<u8>, Seq<u8>)>, name: Seq<u8>) -> Seq<u8>
    decreases hs.len(),
{
    if hs.len() == 0 {
        Seq::empty()
    } else if name_matches(hs[0].0, name) {
        hs[0].1
    } else {
        first_header(hs.drop_first(), name)
    }
}

/// The headers without any header of the given name.
pub open spec fn without_header(hs: Seq<(Seq<u8>, Seq<u8>)>, name: Seq<u8>) -> Seq<
    (Seq<u8>, Seq<u8>),
> {
    hs.filter(|h: (Seq<u8>, Seq<u8>)| !name_matches(h.0, name))
}

/// Value of the first header with the given name, if any.
pub fn header_value(headers: &Vec<(Vec<u8>, Vec<u8>)>, name: &[u8]) -> (r: Option<Vec<u8>>)
    ensures
        r is Some <==> has_header(pair_views(headers@), name@),
        r matches Some(v) ==> v@ == first_header(pair_views(headers@), name@),
{
    let ghost hs = pair_views(headers@);
    let mut i: usize = 0;
    proof {
        assert(hs.skip(0) =~= hs);
    }
    while i < headers.len()
        invariant
            hs == pair_views(headers@),
            i <= headers@.len(),
            forall|j: int| 0 <= j < i ==> !name_matches((#[trigger] hs[j]).0, name@),
            first_header(hs, name@) == first_header(hs.skip(i as int), name@),
        decreases headers@.len() - i,
    {
        let h = &headers[i];
        proof {
            assert(hs.skip(i as int)[0] == hs[i as int]);
            assert(hs.skip(i as int).drop_first() =~= hs.skip(i + 1));
        }
        if eq_bytes_ci(h.0.as_slice(), name) {
            return Some(h.1.clone());
        }
        i = i + 1;
    }
    proof {
        assert(hs.skip(i as int).len() == 0);
        assert(forall|j: int| 0 <= j < hs.len() ==> !name_matches((#[trigger] hs[j]).0, name@));
    }
    None
}

/// Remove every header with the given name, keeping the order of the
/// rest.
pub fn remove_header(headers: &Vec<(Vec<u8>, Vec<u8>)>, name: &[u8]) -> (r: Vec<(Vec<u8>, Vec<u8>)>)
    ensures
        pair_views(r@) == without_header(pair_views(headers@), name@),
{
    let ghost hs = pair_views(headers@);
    let mut out: Vec<(Vec<u8>, Vec<u8>)> = Vec::new();
    let mut i: usize = 0;
    proof {
        assert(hs.take(0) =~= Seq::<(Seq<u8>, Seq<u8>)>::empty());
        assert(without_header(hs.take(0), name@) =~= Seq::<(Seq<u8>, Seq<u8>)>::empty());
    }
    while i < headers.len()
        invariant
            hs == pair_views(headers@),
            i <= headers@.len(),
            pair_views(out@) == without_header(hs.take(i as int), name@),
        decreases headers@.len() - i,
    {
        let h = &headers[i];
        let ghost prev = pair_views(out@);
        proof {
            reveal_with_fuel(Seq::<(Seq<u8>, Seq<u8>)>::filter, 2);
            assert(hs.take(i + 1).drop_last() =~= hs.take(i as int));
            assert(hs.take(i + 1).last() == hs[i as int]);
        }
        if !eq_bytes_ci(h.0.as_slice(), name) {
            out.push((h.0.clone(), h.1.clone()));
            proof {
                assert(pair_views(out@) =~= prev.push(hs[i as int]));
            }
        }
        i = i + 1;
    }
    proof {
        assert(hs.take(hs.len() as int) =~= hs);
    }
    out
}

} // verus!
