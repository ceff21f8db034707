//! A resolver that is set after it is handed out.
use vstd::prelude::*;

use crate::report::ErrorReport;

verus! {

/// Why a lookup through a deferred resolver failed.
#[derive(Debug, PartialEq, Eq)]
pub enum DeferredLookupError {
    Uninitialized,
    Lookup { source: ErrorReport },
}

/// Why a publication through a deferred resolver failed.
#[derive(Debug, PartialEq, Eq)]
pub enum DeferredPublishError {
    Uninitialized,
    Publish { source: ErrorReport },
}

/// Why a deferred resolver could not be set.
#[derive(Debug, PartialEq, Eq)]
pub enum SetDeferredResolverError {
    AlreadyInitialized,
}

impl DeferredLookupError {
    pub fn message(&self) -> (r: &'static str)
        ensures
            r@ == (match *self {
                DeferredLookupError::Uninitialized =>
                    "deferred resolver has not been initialized"@,
                DeferredLookupError::Lookup { .. } => "deferred resolver lookup failed"@,
            }),
    {
        match self {
            DeferredLookupError::Uninitialized => "deferred resolver has not been initialized",
            DeferredLookupError::Lookup { .. } => "deferred resolver lookup failed",
        }
    }
}

impl DeferredPublishError {
    pub fn message(&self) -> (r: &'static str)
        ensures
            r@ == (match *self {
                DeferredPublishError::Uninitialized =>
                    "deferred resolver has not been initialized"@,
                DeferredPublishError::Publish { .. } => "deferred resolver publish failed"@,
            }),
    {
        match self {
            DeferredPublishError::Uninitialized => "deferred resolver has not been initialized",
            DeferredPublishError::Publish { .. } => "deferred resolver publish failed",
        }
    }
}

impl SetDeferredResolverError {
    pub fn message(&self) -> (r: &'static str)
        ensures
            r@ == "deferred resolver has already been initialized"@,
    {
        "deferred resolver has already been initialized"
    }
}

/// A resolver that is set once.
pub struct DeferredResolver<R> {
    inner: Option<R>,
}

impl<R> View for DeferredResolver<R> {
    type V = Option<R>;

    closed spec fn view(&self) -> Option<R> {
        self.inner
    }
}

impl<R> Default for DeferredResolver<R> {
    fn default() -> (r: Self)
        ensures
            r@ == None::<R>,
    {
        Self::new()
    }
}

impl<R> DeferredResolver<R> {
    pub fn new() -> (r: Self)
        ensures
            r@ == None::<R>,
    {
        DeferredResolver { inner: None }
    }

    /// Sets the resolver. Only the first call does.
    pub fn set(&mut self, resolver: R) -> (r: Result<(), SetDeferredResolverError>)
        ensures
            r is Ok <==> old(self)@ is None,
            final(self)@ == (match old(self)@ {
                Some(kept) => Some(kept),
                None => Some(resolver),
            }),
    {
        if self.inner.is_some() {
            return Err(SetDeferredResolverError::AlreadyInitialized);
        }
        self.inner = Some(resolver);
        Ok(())
    }

    pub fn get(&self) -> (r: Option<&R>)
        ensures
            match r {
                Some(resolver) => self@ == Some(*resolver),
                None => self@ is None,
            },
    {
        match &self.inner {
            Some(resolver) => Some(resolver),
            None => None,
        }
    }
}

/// How a deferred resolver is shown: `inner` is how the resolver itself is, where it
/// was set.
pub fn deferred_label(inner: Option<&str>) -> (r: String)
    ensures
        r@ == "DeferredResolver("@ + (match inner {
            Some(label) => label@,
            None => "uninitialized"@,
        }) + ")"@,
{
    let mut out = String::new();
    out.append("DeferredResolver(");
    let label = match inner {
        Some(label) => label,
        None => "uninitialized",
    };
    out.append(label);
    out.append(")");
    assert(out@ =~= "DeferredResolver("@ + label@ + ")"@);
    out
}

/// What a lookup through a deferred resolver comes to: `reply` is what the resolver
/// answered, where it was set.
pub fn deferred_lookup<T>(reply: Option<Result<T, ErrorReport>>) -> (r: Result<
    T,
    DeferredLookupError,
>)
    ensures
        r == (match reply {
            None => Err::<T, DeferredLookupError>(DeferredLookupError::Uninitialized),
            Some(Ok(found)) => Ok(found),
            Some(Err(source)) => Err(DeferredLookupError::Lookup { source }),
        }),
{
    match reply {
        None => Err(DeferredLookupError::Uninitialized),
        Some(Ok(found)) => Ok(found),
        Some(Err(source)) => Err(DeferredLookupError::Lookup { source }),
    }
}

/// What a publication through a deferred resolver comes to: `reply` is what the
/// resolver answered, where it was set.
pub fn deferred_publish(reply: Option<Result<(), ErrorReport>>) -> (r: Result<
    (),
    DeferredPublishError,
>)
    ensures
        r == (match reply {
            None => Err::<(), DeferredPublishError>(DeferredPublishError::Uninitialized),
            Some(Ok(done)) => Ok(done),
            Some(Err(source)) => Err(DeferredPublishError::Publish { source }),
        }),
{
    match reply {
        None => Err(DeferredPublishError::Uninitialized),
        Some(Ok(done)) => Ok(done),
        Some(Err(source)) => Err(DeferredPublishError::Publish { source }),
    }
}

} // verus!
