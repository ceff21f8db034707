//! The ways in which a name can be looked up.
use vstd::prelude::*;

use crate::text::{join2, text_eq};

verus! {

/// A way in which a name can be looked up.
#[derive(Debug, Clone, Copy, PartialEq, Eq, Hash, PartialOrd, Ord, Structural)]
pub enum DnsScheme {
    Mdns,
    Http,
    H3,
    System,
}

/// A text that is no scheme.
#[derive(Debug, PartialEq, Eq)]
pub struct ParseDnsSchemeError {
    scheme: String,
}

impl ParseDnsSchemeError {
    /// The text that was read.
    pub closed spec fn scheme(self) -> Seq<char> {
        self.scheme@
    }

    pub fn message(&self) -> (r: String)
        ensures
            r@ == "unsupported dns scheme "@ + self.scheme(),
    {
        join2("unsupported dns scheme ", self.scheme.as_str())
    }
}

impl DnsScheme {
    pub open spec fn name(self) -> Seq<char> {
        match self {
            DnsScheme::Mdns => "mdns"@,
            DnsScheme::Http => "http"@,
            DnsScheme::H3 => "h3"@,
            DnsScheme::System => "system"@,
        }
    }

    pub fn as_str(&self) -> (r: &'static str)
        ensures
            r@ == self.name(),
    {
        match self {
            DnsScheme::Mdns => "mdns",
            DnsScheme::Http => "http",
            DnsScheme::H3 => "h3",
            DnsScheme::System => "system",
        }
    }

    /// The scheme with a name.
    pub fn parse(s: &str) -> (r: Result<Self, ParseDnsSchemeError>)
        ensures
            match r {
                Ok(scheme) => scheme.name() == s@,
                Err(e) => e.scheme() == s@ && forall|scheme: DnsScheme| #[trigger]
                    scheme.name() != s@,
            },
    {
        if text_eq(s, "mdns") {
            Ok(DnsScheme::Mdns)
        } else if text_eq(s, "http") {
            Ok(DnsScheme::Http)
        } else if text_eq(s, "h3") {
            Ok(DnsScheme::H3)
        } else if text_eq(s, "system") {
            Ok(DnsScheme::System)
        } else {
            Err(ParseDnsSchemeError { scheme: s.to_owned() })
        }
    }
}

impl std::str::FromStr for DnsScheme {
    type Err = ParseDnsSchemeError;

    /// The scheme with a name.
    fn from_str(s: &str) -> (r: Result<Self, Self::Err>)
        ensures
            match r {
                Ok(scheme) => scheme.name() == s@,
                Err(e) => e.scheme() == s@ && forall|scheme: DnsScheme| #[trigger]
                    scheme.name() != s@,
            },
    {
        DnsScheme::parse(s)
    }
}

/// Reading the name of a scheme gives the scheme back: no two schemes share a name.
pub proof fn law_scheme_names_are_unique(a: DnsScheme, b: DnsScheme)
    ensures
        a.name() == b.name() <==> a == b,
{
    reveal_strlit("mdns");
    reveal_strlit("http");
    reveal_strlit("h3");
    reveal_strlit("system");
    if a.name() == b.name() {
        assert(a.name().len() == b.name().len());
        assert(a.name()[0] == b.name()[0]);
    }
}

} // verus!
