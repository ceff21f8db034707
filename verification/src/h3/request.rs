//! The requests of the H3 client.
use vstd::prelude::*;

use crate::foreign::UriParts;
use crate::text::text_eq;

verus! {

/// The port of a scheme.
pub open spec fn default_port(scheme: Option<Seq<char>>) -> Option<Seq<char>> {
    match scheme {
        Some(scheme) => if scheme == "http"@ {
            Some(":80"@)
        } else if scheme == "https"@ {
            Some(":443"@)
        } else {
            None
        },
        None => None,
    }
}

/// The authority that a request connects to: that of the URI, with the port of the
/// scheme where it has none of its own.
pub fn request_authority(uri: &UriParts) -> (r: String)
    requires
        uri.authority is Some,
    ensures
        r@ == (uri.authority->0)@ + (if uri.port is Some {
            ""@
        } else {
            match default_port(uri@.scheme) {
                Some(port) => port,
                None => ""@,
            }
        }),
{
    let mut out = String::new();
    match &uri.authority {
        Some(authority) => {
            out.append(authority.as_str());
        },
        None => {},
    }
    let port = if uri.port.is_some() {
        ""
    } else {
        match &uri.scheme {
            Some(scheme) => if text_eq(scheme.as_str(), "http") {
                ":80"
            } else if text_eq(scheme.as_str(), "https") {
                ":443"
            } else {
                ""
            },
            None => "",
        }
    };
    out.append(port);
    assert(out@ =~= (uri.authority->0)@ + port@);
    out
}

/// The port that goes without saying is that of the scheme.
pub proof fn law_ports_go_without_saying(scheme: Seq<char>)
    ensures
        default_port(Some("http"@)) == Some(seq![':', '8', '0']),
        default_port(Some("https"@)) == Some(seq![':', '4', '4', '3']),
        scheme != "http"@ && scheme != "https"@ ==> default_port(Some(scheme)) is None,
        default_port(None) is None,
{
    reveal_strlit(":80");
    reveal_strlit(":443");
    reveal_strlit("http");
    reveal_strlit("https");
    assert("http"@.len() != "https"@.len());
    assert(":80"@ =~= seq![':', '8', '0']);
    assert(":443"@ =~= seq![':', '4', '4', '3']);
}

} // verus!
