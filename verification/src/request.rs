//! The guest request builder: a typestate chain from decoded request
//! to business handler.
//!
//! Each builder shape records which of {request, owner, provider} is
//! set; every transition consumes the builder and returns the next
//! shape, and only the fully populated shape can be handled.  That a
//! builder without owner or provider cannot be handled is enforced at
//! compile time: no `handle` exists on those shapes.

use vstd::prelude::*;

verus! {

/// Owner not yet set.
pub struct NoOwner;

/// The owning tenant, as set on the builder.
pub struct OwnerSet(pub String);

/// Provider not yet set.
pub struct NoProvider;

/// The capability façade the handlers will use.
pub struct ProviderSet<P>(pub P);

/// Request not yet set.
pub struct NoRequest;

/// The decoded request carried through the chain.
pub struct RequestSet<R>(pub R);

/// What a handler sees: the owner, the provider, and the request
/// headers of the one call being served.
pub struct Context<'a, P> {
    pub owner: &'a str,
    pub provider: &'a P,
    pub headers: &'a Vec<(String, String)>,
}

/// Assemble the per-call context from what the builder set: the
/// handler sees exactly that owner, that provider and those headers.
pub fn make_context<'a, P>(
    owner: &'a OwnerSet,
    provider: &'a ProviderSet<P>,
    headers: &'a Vec<(String, String)>,
) -> (c: Context<'a, P>)
    ensures
        c.owner@ == owner.0@,
        c.provider == &provider.0,
        c.headers == headers,
{
    Context { owner: owner.0.as_str(), provider: &provider.0, headers }
}

/// A handler's reply, encoded by the dispatcher on the way out.
pub struct Reply<T> {
    pub body: T,
}

/// Implemented by request types to process one decoded request.
pub trait Handler<P>: Sized {
    /// The raw input the request type is decoded from.
    type Input;

    /// The reply body type.
    type Output;

    /// The handler's own error type.
    type Error;

    /// Decode the raw input into the request type.
    fn decode(input: Self::Input) -> Result<Self, Self::Error>;

    /// Process the request under the per-call context.
    fn handle(self, ctx: Context<'_, P>) -> Result<Reply<Self::Output>, Self::Error>;

    /// Decode the input and seed the builder chain with the request:
    /// the chain starts from a value `decode` produced for this very
    /// input, and a decode failure is handed back unchanged.
    fn handler(input: Self::Input) -> (r: Result<PreHandler<Self>, Self::Error>)
        ensures
            r matches Ok(p) ==> call_ensures(Self::decode, (input,), Ok(p.0.0)),
            r matches Err(e) ==> call_ensures(Self::decode, (input,), Err(e)),
    {
        match Self::decode(input) {
            Ok(request) => Ok(PreHandler::new(request)),
            Err(e) => Err(e),
        }
    }
}

/// The chain's first stage: a decoded request, nothing else set.
pub struct PreHandler<R>(pub RequestSet<R>);

impl<R> PreHandler<R> {
    /// Seed the chain with a decoded request.
    pub fn new(request: R) -> (r: PreHandler<R>)
        ensures
            r.0.0 == request,
    {
        PreHandler(RequestSet(request))
    }

    /// Set the provider, moving to a builder that still lacks an
    /// owner.
    pub fn provider<P>(self, provider: P) -> (r: RequestHandler<
        RequestSet<R>,
        NoOwner,
        ProviderSet<P>,
    >)
        ensures
            r.request == self.0,
            r.provider.0 == provider,
            r.headers@.len() == 0,
    {
        RequestHandler {
            request: self.0,
            headers: Vec::new(),
            owner: NoOwner,
            provider: ProviderSet(provider),
        }
    }
}

/// The request builder.  The type parameters carry the typestate:
/// which of request, owner and provider have been set.
pub struct RequestHandler<R, O, P> {
    pub request: R,
    pub headers: Vec<(String, String)>,
    pub owner: O,
    pub provider: P,
}

impl RequestHandler<NoRequest, NoOwner, NoProvider> {
    /// A fresh builder with nothing set.
    pub fn new() -> (r: RequestHandler<NoRequest, NoOwner, NoProvider>)
        ensures
            r.headers@.len() == 0,
    {
        RequestHandler { request: NoRequest, headers: Vec::new(), owner: NoOwner, provider: NoProvider }
    }
}

impl<R, O> RequestHandler<R, O, NoProvider> {
    /// Set the provider.  Consuming `self` makes a second `provider`
    /// call impossible: the result no longer has this method.
    pub fn provider<P>(self, provider: P) -> (r: RequestHandler<R, O, ProviderSet<P>>)
        ensures
            r.request == self.request,
            r.headers@ == self.headers@,
            r.owner == self.owner,
            r.provider.0 == provider,
    {
        RequestHandler {
            request: self.request,
            headers: self.headers,
            owner: self.owner,
            provider: ProviderSet(provider),
        }
    }
}

impl<O, P> RequestHandler<NoRequest, O, P> {
    /// Set the request; once set it cannot be replaced, since the
    /// result no longer has this method.
    pub fn request<R>(self, request: R) -> (r: RequestHandler<RequestSet<R>, O, P>)
        ensures
            r.request.0 == request,
            r.headers@.len() == 0,
            r.owner == self.owner,
            r.provider == self.provider,
    {
        RequestHandler {
            request: RequestSet(request),
            headers: Vec::new(),
            owner: self.owner,
            provider: self.provider,
        }
    }
}

impl<R, P> RequestHandler<R, NoOwner, P> {
    /// Set the owning tenant.
    pub fn owner(self, owner: String) -> (r: RequestHandler<R, OwnerSet, P>)
        ensures
            r.request == self.request,
            r.headers@ == self.headers@,
            r.owner.0 == owner,
            r.provider == self.provider,
    {
        RequestHandler {
            request: self.request,
            headers: self.headers,
            owner: OwnerSet(owner),
            provider: self.provider,
        }
    }
}

impl<R, O, P> RequestHandler<R, O, P> {
    /// Replace the headers; they default to empty.
    pub fn headers(self, headers: Vec<(String, String)>) -> (r: RequestHandler<R, O, P>)
        ensures
            r.request == self.request,
            r.headers@ == headers@,
            r.owner == self.owner,
            r.provider == self.provider,
    {
        RequestHandler { request: self.request, headers, owner: self.owner, provider: self.provider }
    }
}

impl<R, P> RequestHandler<RequestSet<R>, OwnerSet, ProviderSet<P>> where R: Handler<P> {
    /// Handle the request.  Only this fully populated shape has the
    /// method: a builder without owner or provider cannot be handled,
    /// and the call consumes the builder, so it runs exactly once.
    /// The result is one the request's own handler produced under a
    /// context carrying exactly the owner, provider and headers that
    /// were set.
    pub fn handle(self) -> (r: Result<Reply<R::Output>, R::Error>)
        ensures
            exists|c: Context<'static, P>|
                {
                    &&& c.owner@ == self.owner.0@
                    &&& *c.provider == self.provider.0
                    &&& c.headers@ == self.headers@
                    &&& #[trigger] call_ensures(R::handle, (self.request.0, c), r)
                },
    {
        let ctx = make_context(&self.owner, &self.provider, &self.headers);
        self.request.0.handle(ctx)
    }
}

} // verus!
