//! Host-side outbound HTTP adapter: the compute parts of sending a
//! guest-originated request upstream.  The transport call itself is the
//! embedder's; this module prepares the request (client-certificate
//! extraction) and cleans the response (hop-by-hop header stripping).

use vstd::prelude::*;
use crate::bytestr::{eq_bytes_ci, lit_bytes, pair_views, str_to_bytes};
use crate::env::{env_first, env_has, str_pair_views};
use crate::errors::{ErrorCode, StartError};
use crate::http::{name_matches, without_header, OutboundRequest, OutboundResponse};

verus! {

/// The response headers that must not leave the host adapter: the
/// hop-by-hop set the sandboxed HTTP transport refuses.
pub open spec fn forbidden_names() -> Seq<Seq<u8>> {
    seq![
        lit_bytes("connection"),
        lit_bytes("host"),
        lit_bytes("proxy-authenticate"),
        lit_bytes("proxy-authorization"),
        lit_bytes("transfer-encoding"),
        lit_bytes("upgrade"),
        lit_bytes("keep-alive"),
        lit_bytes("proxy-connection"),
        lit_bytes("http2-settings"),
    ]
}

/// The header name is one of the forbidden set, case-insensitively.
pub open spec fn is_forbidden_name(n: Seq<u8>) -> bool {
    exists|i: int|
        0 <= i < forbidden_names().len() && name_matches(n, #[trigger] forbidden_names()[i])
}

/// Decide membership in the forbidden-header set.
pub fn is_forbidden_header(name: &[u8]) -> (r: bool)
    ensures
        r == is_forbidden_name(name@),
{
    let names = forbidden_list();
    let mut i: usize = 0;
    while i < names.len()
        invariant
            pair_is_forbidden_list(names@),
            forall|j: int| 0 <= j < i ==> !name_matches(name@, (#[trigger] names@[j])@),
        decreases names@.len() - i,
    {
        if eq_bytes_ci(name, names[i].as_slice()) {
            proof {
                assert(name_matches(name@, forbidden_names()[i as int]));
            }
            return true;
        }
        i = i + 1;
    }
    proof {
        assert forall|j: int| 0 <= j < forbidden_names().len() implies !name_matches(
            name@,
            #[trigger] forbidden_names()[j],
        ) by {
            assert((names@[j])@ == forbidden_names()[j]);
            assert(!name_matches(name@, (names@[j])@));
        }
    }
    false
}

spec fn pair_is_forbidden_list(v: Seq<Vec<u8>>) -> bool {
    v.len() == forbidden_names().len() && forall|i: int|
        0 <= i < v.len() ==> (#[trigger] v[i])@ == forbidden_names()[i]
}

fn forbidden_list() -> (r: Vec<Vec<u8>>)
    ensures
        pair_is_forbidden_list(r@),
{
    let mut v: Vec<Vec<u8>> = Vec::new();
    v.push(str_to_bytes("connection"));
    v.push(str_to_bytes("host"));
    v.push(str_to_bytes("proxy-authenticate"));
    v.push(str_to_bytes("proxy-authorization"));
    v.push(str_to_bytes("transfer-encoding"));
    v.push(str_to_bytes("upgrade"));
    v.push(str_to_bytes("keep-alive"));
    v.push(str_to_bytes("proxy-connection"));
    v.push(str_to_bytes("http2-settings"));
    v
}

/// The headers with every forbidden one removed and nothing else
/// touched.
pub open spec fn stripped(hs: Seq<(Seq<u8>, Seq<u8>)>) -> Seq<(Seq<u8>, Seq<u8>)> {
    hs.filter(|h: (Seq<u8>, Seq<u8>)| !is_forbidden_name(h.0))
}

/// Remove the forbidden headers from a header list.
pub fn strip_forbidden(headers: &Vec<(Vec<u8>, Vec<u8>)>) -> (r: Vec<(Vec<u8>, Vec<u8>)>)
    ensures
        pair_views(r@) == stripped(pair_views(headers@)),
{
    let ghost hs = pair_views(headers@);
    let mut out: Vec<(Vec<u8>, Vec<u8>)> = Vec::new();
    let mut i: usize = 0;
    proof {
        assert(hs.take(0) =~= Seq::<(Seq<u8>, Seq<u8>)>::empty());
        assert(stripped(hs.take(0)) =~= Seq::<(Seq<u8>, Seq<u8>)>::empty());
    }
    while i < headers.len()
        invariant
            hs == pair_views(headers@),
            i <= headers@.len(),
            pair_views(out@) == stripped(hs.take(i as int)),
        decreases headers@.len() - i,
    {
        let h = &headers[i];
        let ghost prev = pair_views(out@);
        proof {
            reveal_with_fuel(Seq::<(Seq<u8>, Seq<u8>)>::filter, 2);
            assert(hs.take(i + 1).drop_last() =~= hs.take(i as int));
            assert(hs.take(i + 1).last() == hs[i as int]);
        }
        if !is_forbidden_header(h.0.as_slice()) {
            out.push((h.0.clone(), h.1.clone()));
            proof {
                assert(pair_views(out@) =~= prev.push(hs[i as int]));
            }
        }
        i = i + 1;
    }
    proof {
        assert(hs.take(hs.len() as int) =~= hs);
    }
    out
}

/// No forbidden header survives stripping, and every other header
/// survives it: stripping removes exactly the forbidden set.
pub proof fn lemma_strip_forbidden_complete(hs: Seq<(Seq<u8>, Seq<u8>)>)
    ensures
        forall|i: int|
            0 <= i < stripped(hs).len() ==> !is_forbidden_name((#[trigger] stripped(hs)[i]).0),
        forall|h: (Seq<u8>, Seq<u8>)|
            hs.contains(h) && !is_forbidden_name(h.0) ==> #[trigger] stripped(hs).contains(h),
{
    let pred = |h: (Seq<u8>, Seq<u8>)| !is_forbidden_name(h.0);
    assert forall|i: int| 0 <= i < stripped(hs).len() implies !is_forbidden_name(
        (#[trigger] stripped(hs)[i]).0,
    ) by {
        hs.lemma_filter_pred(pred, i);
    }
    assert forall|h: (Seq<u8>, Seq<u8>)|
        hs.contains(h) && !is_forbidden_name(h.0) implies #[trigger] stripped(hs).contains(h) by {
        let i = choose|i: int| 0 <= i < hs.len() && hs[i] == h;
        hs.lemma_filter_contains(pred, i);
    }
}

/// Clean an upstream response before it reaches the guest: every
/// forbidden header is removed; status and body pass through.
pub fn clean_response(resp: OutboundResponse) -> (r: OutboundResponse)
    ensures
        r.status == resp.status,
        r.body@ == resp.body@,
        pair_views(r.headers@) == stripped(pair_views(resp.headers@)),
{
    let headers = strip_forbidden(&resp.headers);
    OutboundResponse { status: resp.status, headers, body: resp.body }
}

/// What an outbound decoder saw: `Some` carries the decoded bytes of a
/// well-formed Base64 string, `None` marks rejected input.
pub uninterp spec fn base64_decoding(s: Seq<u8>) -> Option<Seq<u8>>;

/// Relies on base64ct's `Base64::decode_vec` (standard alphabet, padded):
/// whether the input decodes, and to what, is a function of the input
/// bytes alone.
#[verifier::external_body]
fn decode_base64(s: &[u8]) -> (r: Option<Vec<u8>>)
    ensures
        r is Some <==> base64_decoding(s@) is Some,
        r matches Some(v) ==> base64_decoding(s@) == Some(v@),
{
    let text = core::str::from_utf8(s).ok()?;
    <base64ct::Base64 as base64ct::Encoding>::decode_vec(text).ok()
}

/// An outbound request ready for the embedder's HTTP client, with the
/// client certificate (if one was attached) separated out.
#[derive(Debug, Clone)]
pub struct PreparedRequest {
    /// PEM bytes decoded from the `Client-Cert` header, if it was set.
    pub identity_pem: Option<Vec<u8>>,
    /// The request to send, with the `Client-Cert` header removed.
    pub request: OutboundRequest,
}

/// What a successful preparation yields for the given request: all
/// non-header fields unchanged; without a `Client-Cert` header the
/// headers pass through untouched and no identity is attached; with
/// one, the header's first value must decode as Base64, the decoded PEM
/// is attached, and the header itself is removed.
pub open spec fn prepared_for(req: OutboundRequest, p: PreparedRequest) -> bool {
    let hs = pair_views(req.headers@);
    let name = lit_bytes("client-cert");
    &&& p.request.method@ == req.method@
    &&& p.request.scheme@ == req.scheme@
    &&& p.request.authority@ == req.authority@
    &&& p.request.path@ == req.path@
    &&& p.request.query@ == req.query@
    &&& p.request.body@ == req.body@
    &&& if !crate::http::has_header(hs, name) {
        p.identity_pem is None && p.request.headers@ == req.headers@
    } else {
        match base64_decoding(crate::http::first_header(hs, name)) {
            Some(pem) => {
                &&& match p.identity_pem {
                    Some(v) => v@ == pem,
                    None => false,
                }
                &&& pair_views(p.request.headers@) == without_header(hs, name)
            },
            None => false,
        }
    }
}

/// Prepare a request for the upstream client.  A `Client-Cert` header
/// carries a Base64 PEM client certificate: it is removed from the
/// headers and handed over decoded.  A present but undecodable value is
/// an internal error; a request without the header passes through
/// unchanged.
pub fn prepare_outbound(req: OutboundRequest) -> (r: Result<PreparedRequest, ErrorCode>)
    ensures
        r is Err <==> crate::http::has_header(pair_views(req.headers@), lit_bytes("client-cert"))
            && base64_decoding(
            crate::http::first_header(pair_views(req.headers@), lit_bytes("client-cert")),
        ) is None,
        r matches Err(e) ==> (e matches ErrorCode::InternalError(m) && (m matches Some(s) && s@
            == "invalid Client-Cert encoding"@)),
        r matches Ok(p) ==> prepared_for(req, p),
{
    let name = str_to_bytes("client-cert");
    let encoded = crate::http::header_value(&req.headers, name.as_slice());
    match encoded {
        None => Ok(PreparedRequest { identity_pem: None, request: req }),
        Some(value) => {
            match decode_base64(value.as_slice()) {
                None => Err(
                    ErrorCode::InternalError(Some("invalid Client-Cert encoding".to_owned())),
                ),
                Some(pem) => {
                    let headers = crate::http::remove_header(&req.headers, name.as_slice());
                    Ok(
                        PreparedRequest {
                            identity_pem: Some(pem),
                            request: OutboundRequest {
                                method: req.method,
                                scheme: req.scheme,
                                authority: req.authority,
                                path: req.path,
                                query: req.query,
                                headers,
                                body: req.body,
                            },
                        },
                    )
                },
            }
        },
    }
}

/// Connection options of the default HTTP backend, bound from the
/// environment.
#[derive(Debug, Clone)]
pub struct ConnectOptions {
    pub addr: String,
}

impl ConnectOptions {
    /// Bind the options from environment pairs: `HTTP_ADDR`, with a
    /// documented default when unset.
    pub fn from_pairs(env: &Vec<(String, String)>) -> (r: ConnectOptions)
        ensures
            env_has(str_pair_views(env@), "HTTP_ADDR"@) ==> r.addr@ == env_first(
                str_pair_views(env@),
                "HTTP_ADDR"@,
            ),
            !env_has(str_pair_views(env@), "HTTP_ADDR"@) ==> r.addr@ == "http://localhost:8080"@,
    {
        let key: String = "HTTP_ADDR".to_owned();
        match crate::env::env_lookup(env, &key) {
            Some(addr) => ConnectOptions { addr },
            None => ConnectOptions { addr: "http://localhost:8080".to_owned() },
        }
    }
}

/// The default HTTP backend: a stateless handle over the embedder's
/// client; connecting never fails.
#[derive(Debug, Clone)]
pub struct HttpDefault;

impl HttpDefault {
    /// Connecting the default HTTP backend always succeeds: it owns no
    /// sockets of its own.
    pub fn connect_with(options: ConnectOptions) -> (r: Result<HttpDefault, StartError>)
        ensures
            r is Ok,
    {
        let _ = options;
        Ok(HttpDefault)
    }
}

impl crate::traits::FromEnv for ConnectOptions {
    /// Binding the HTTP options never fails: the one variable has a
    /// documented default.
    fn from_env(env: &Vec<(String, String)>) -> Result<ConnectOptions, StartError> {
        Ok(ConnectOptions::from_pairs(env))
    }
}

impl crate::traits::Backend for HttpDefault {
    type Options = ConnectOptions;

    fn connect_with(options: ConnectOptions) -> Result<HttpDefault, StartError> {
        HttpDefault::connect_with(options)
    }
}

} // verus!
