//! A resolver that does not keep its target alive.
use vstd::prelude::*;

use crate::report::ErrorReport;
use crate::text::join2;

verus! {

/// Why a lookup through a weak resolver failed.
#[derive(Debug, PartialEq, Eq)]
pub enum WeakLookupError {
    Dropped,
    Lookup { source: ErrorReport },
}

/// Why a publication through a weak resolver failed.
#[derive(Debug, PartialEq, Eq)]
pub enum WeakPublishError {
    Dropped,
    Publish { source: ErrorReport },
}

impl WeakLookupError {
    pub fn message(&self) -> (r: &'static str)
        ensures
            r@ == (match *self {
                WeakLookupError::Dropped => "weak resolver target has been dropped"@,
                WeakLookupError::Lookup { .. } => "weak resolver lookup failed"@,
            }),
    {
        match self {
            WeakLookupError::Dropped => "weak resolver target has been dropped",
            WeakLookupError::Lookup { .. } => "weak resolver lookup failed",
        }
    }
}

impl WeakPublishError {
    pub fn message(&self) -> (r: &'static str)
        ensures
            r@ == (match *self {
                WeakPublishError::Dropped => "weak resolver target has been dropped"@,
                WeakPublishError::Publish { .. } => "weak resolver publish failed"@,
            }),
    {
        match self {
            WeakPublishError::Dropped => "weak resolver target has been dropped",
            WeakPublishError::Publish { .. } => "weak resolver publish failed",
        }
    }
}

/// A resolver whose target is reached through `F`, which gives the target for as long
/// as it is alive, such as the upgrade of a weak reference. The resolver holds `F` and
/// nothing else, so it keeps the target alive only where `F` does.
pub struct WeakResolver<F> {
    inner: F,
}

impl<F> WeakResolver<F> {
    /// How the target is reached.
    pub closed spec fn target(self) -> F {
        self.inner
    }

    pub fn new(inner: F) -> (r: Self)
        ensures
            r.target() == inner,
    {
        WeakResolver { inner }
    }
}

/// What an upgrade through `inner` may come to: the target that it gives, or an error where
/// it gives none.
pub open spec fn upgrades_to<T, F: Fn() -> Option<T>>(
    inner: F,
    r: Result<T, WeakLookupError>,
) -> bool {
    match r {
        Ok(target) => call_ensures(inner, (), Some(target)),
        Err(e) => e is Dropped && call_ensures(inner, (), None),
    }
}

/// Where `inner` gives `target` or nothing, so does an upgrade, and nothing is the error of a
/// target that was dropped. Where it has to give `target`, an upgrade gives it, and where it
/// can give nothing, an upgrade gives that error.
pub proof fn law_upgrades_give_the_target_or_nothing<T, F: Fn() -> Option<T>>(
    inner: F,
    target: T,
    r: Result<T, WeakLookupError>,
)
    requires
        upgrades_to(inner, r),
        forall|given: T| #[trigger] call_ensures(inner, (), Some(given)) ==> given == target,
    ensures
        r == Ok::<T, WeakLookupError>(target) || r == Err::<T, WeakLookupError>(
            WeakLookupError::Dropped,
        ),
        !call_ensures(inner, (), None) ==> r == Ok::<T, WeakLookupError>(target),
        (forall|given: T| !#[trigger] call_ensures(inner, (), Some(given))) ==> r == Err::<
            T,
            WeakLookupError,
        >(WeakLookupError::Dropped),
{
}

impl<T, F: Fn() -> Option<T>> WeakResolver<F> {
    /// The target, where it is still alive. Whether it is, and that one that was dropped
    /// never comes back, is known to `F` alone.
    pub fn upgrade(&self) -> (r: Result<T, WeakLookupError>)
        requires
            call_requires(self.target(), ()),
        ensures
            upgrades_to(self.target(), r),
    {
        match (self.inner)() {
            Some(target) => Ok(target),
            None => Err(WeakLookupError::Dropped),
        }
    }
}

/// How a weak resolver is shown: `inner` is how the target itself is, where it is still
/// alive.
pub fn weak_label(inner: Option<&str>) -> (r: String)
    ensures
        r@ == "WeakResolver("@ + (match inner {
            Some(label) => label@,
            None => "dropped"@,
        }) + ")"@,
{
    let label = match inner {
        Some(label) => label,
        None => "dropped",
    };
    let mut out = join2("WeakResolver(", label);
    out.append(")");
    out
}

/// What a lookup through a weak resolver comes to: `reply` is what the target answered,
/// where it was still alive.
pub fn weak_lookup<T>(reply: Option<Result<T, ErrorReport>>) -> (r: Result<T, WeakLookupError>)
    ensures
        r == (match reply {
            None => Err::<T, WeakLookupError>(WeakLookupError::Dropped),
            Some(Ok(found)) => Ok(found),
            Some(Err(source)) => Err(WeakLookupError::Lookup { source }),
        }),
{
    match reply {
        None => Err(WeakLookupError::Dropped),
        Some(Ok(found)) => Ok(found),
        Some(Err(source)) => Err(WeakLookupError::Lookup { source }),
    }
}

/// What a publication through a weak resolver comes to: `reply` is what the target
/// answered, where it was still alive.
pub fn weak_publish(reply: Option<Result<(), ErrorReport>>) -> (r: Result<(), WeakPublishError>)
    ensures
        r == (match reply {
            None => Err::<(), WeakPublishError>(WeakPublishError::Dropped),
            Some(Ok(done)) => Ok(done),
            Some(Err(source)) => Err(WeakPublishError::Publish { source }),
        }),
{
    match reply {
        None => Err(WeakPublishError::Dropped),
        Some(Ok(done)) => Ok(done),
        Some(Err(source)) => Err(WeakPublishError::Publish { source }),
    }
}

} // verus!
