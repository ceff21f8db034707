//! The names that can be looked up.
use vstd::prelude::*;

use crate::foreign::{dns_name, is_dns_name};
use crate::protocol::certificate::CertificateSequence;
use crate::text::{
    all_digits, decimal, decimal_value, is_all_digits, is_digit, last_index, lemma_decimal_digits,
    lemma_last_index, parse_unsigned, rsplit_once,
};

verus! {

/// Default DNS-over-H3 server for DHTTP endpoints.
pub const DHTTP_H3_DNS_SERVER: &'static str = "https://dns.genmeta.net:4433";

/// Default DNS-over-HTTP server for DHTTP endpoints.
pub const DHTTP_HTTP_DNS_SERVER: &'static str = "https://dns.genmeta.net";

/// mDNS service type used by DHTTP endpoints.
pub const DHTTP_MDNS_SERVICE: &'static str = "_dhttp.local";

/// The position of the colon before a number at the end of a name, or -1 where the
/// name does not end in one.
pub open spec fn number_colon(name: Seq<char>) -> int {
    let i = last_index(name, ':');
    if i >= 0 && i + 1 < name.len() && all_digits(name.skip(i + 1)) {
        i
    } else {
        -1
    }
}

/// A name without a number behind a colon at its end.
pub open spec fn without_number(name: Seq<char>) -> Seq<char> {
    let i = number_colon(name);
    if i >= 0 {
        name.take(i)
    } else {
        name
    }
}

/// A name and the number behind a colon at its end, where there is one.
pub(crate) fn split_number<'a>(name: &'a str) -> (r: (&'a str, Option<&'a str>))
    ensures
        r.0@ == without_number(name@),
        match r.1 {
            Some(digits) => number_colon(name@) >= 0 && digits@ == name@.skip(
                number_colon(name@) + 1,
            ),
            None => number_colon(name@) < 0,
        },
{
    match rsplit_once(name, ':') {
        Some((host, digits)) => if digits.unicode_len() > 0 && is_all_digits(digits) {
            (host, Some(digits))
        } else {
            (name, None)
        },
        None => (name, None),
    }
}

/// The host of a name, which may carry a port, where it is a DNS name.
pub open spec fn resolvable(name: Seq<char>) -> Option<Seq<char>> {
    if dns_name(without_number(name)) {
        Some(without_number(name))
    } else {
        None
    }
}

/// The host of `name`, which may carry a port. There is none for an IP address or
/// anything else that is no DNS name.
pub fn resolvable_name<'a>(name: &'a str) -> (r: Option<&'a str>)
    ensures
        (match r {
            Some(host) => Some(host@),
            None => None,
        }) == resolvable(name@),
{
    let (host, _) = split_number(name);
    if is_dns_name(host) {
        Some(host)
    } else {
        None
    }
}

/// The certificate chain sequence that a number selects.
pub open spec fn selects(digits: Seq<char>, sequence: CertificateSequence) -> bool {
    sequence.number() == decimal_value(digits)
}

/// The host that an endpoint name is looked up for. A number behind a colon selects a
/// certificate chain, and has to be the sequence of one.
pub open spec fn lookup_host(name: Seq<char>) -> Option<Seq<char>> {
    let i = number_colon(name);
    if i >= 0 && decimal_value(name.skip(i + 1)) > 0x7fff_ffff {
        None
    } else {
        resolvable(without_number(name))
    }
}

/// The host that an endpoint name is looked up for, and the certificate chain that
/// it selects, where it selects one.
pub fn endpoint_lookup_name_and_sequence<'a>(name: &'a str) -> (r: Option<
    (&'a str, Option<CertificateSequence>),
>)
    ensures
        (match r {
            Some((host, _)) => Some(host@),
            None => None,
        }) == lookup_host(name@),
        match r {
            Some((_, Some(sequence))) => number_colon(name@) >= 0 && selects(
                name@.skip(number_colon(name@) + 1),
                sequence,
            ),
            Some((_, None)) => number_colon(name@) < 0,
            None => true,
        },
{
    let (host, digits) = split_number(name);
    let sequence = match digits {
        Some(digits) => {
            assert(is_digit(digits@[0]));
            let value = match parse_unsigned(digits) {
                Some(value) => value,
                None => return None,
            };
            match CertificateSequence::new(value) {
                Some(sequence) => Some(sequence),
                None => return None,
            }
        },
        None => None,
    };
    match resolvable_name(host) {
        Some(host) => Some((host, sequence)),
        None => None,
    }
}

proof fn lemma_numbered_name(host: Seq<char>, digits: Seq<char>)
    requires
        digits.len() > 0,
        all_digits(digits),
    ensures
        number_colon(host + seq![':'] + digits) == host.len(),
        (host + seq![':'] + digits).skip(host.len() as int + 1) == digits,
        (host + seq![':'] + digits).take(host.len() as int) == host,
{
    let name = host + seq![':'] + digits;
    lemma_last_index(name, ':');
    let at = last_index(name, ':');
    assert(name[host.len() as int] == ':');
    if at > host.len() {
        assert(name[at] == digits[at - host.len() - 1]);
        assert(is_digit(digits[at - host.len() - 1]));
    }
    assert(name.skip(host.len() as int + 1) =~= digits);
    assert(name.take(host.len() as int) =~= host);
}

proof fn lemma_bare_name(host: Seq<char>)
    requires
        !host.contains(':'),
    ensures
        number_colon(host) == -1,
{
    lemma_last_index(host, ':');
    if last_index(host, ':') >= 0 {
        assert(host.contains(host[last_index(host, ':')]));
    }
}

/// A host is looked up by itself, or with a colon and the number of a certificate behind it,
/// where that fits. The number is no part of the host that is looked up.
pub proof fn law_hosts_are_looked_up_with_or_without_a_number(host: Seq<char>, n: nat)
    requires
        !host.contains(':'),
    ensures
        dns_name(host) ==> {
            &&& lookup_host(host) == Some(host)
            &&& n <= 0x7fff_ffff ==> lookup_host(host + seq![':'] + decimal(n)) == Some(host)
            &&& resolvable(host) == Some(host)
            &&& resolvable(host + seq![':'] + decimal(n)) == Some(host)
        },
        n > 0x7fff_ffff ==> lookup_host(host + seq![':'] + decimal(n)) is None,
        number_colon(host) < 0,
        number_colon(host + seq![':'] + decimal(n)) == host.len(),
        forall|sequence: CertificateSequence|
            selects(decimal(n), sequence) <==> #[trigger] sequence.number() == n,
{
    lemma_decimal_digits(n);
    lemma_numbered_name(host, decimal(n));
    lemma_bare_name(host);
}

/// What is no name of the DNS is not looked up, with a number or without.
pub proof fn law_other_hosts_are_not_looked_up(host: Seq<char>, n: nat)
    requires
        !host.contains(':'),
    ensures
        !dns_name(host) ==> {
            &&& lookup_host(host) is None
            &&& lookup_host(host + seq![':'] + decimal(n)) is None
            &&& resolvable(host) is None
            &&& resolvable(host + seq![':'] + decimal(n)) is None
        },
{
    lemma_decimal_digits(n);
    lemma_numbered_name(host, decimal(n));
    lemma_bare_name(host);
}

/// A number behind a host is cut off.
pub proof fn lemma_number_is_cut_off(host: Seq<char>, n: nat)
    requires
        !host.contains(':'),
    ensures
        without_number(host) == host,
        without_number(host + seq![':'] + decimal(n)) == host,
{
    lemma_decimal_digits(n);
    lemma_numbered_name(host, decimal(n));
    lemma_bare_name(host);
}

} // verus!
