//! What the modules of the library offer.
use ddns::{h3, http, mdns, publishers, resolvers};

#[test]
fn h3_backend_module_is_public() {
    let cache = h3::cache::LookupCache::new();
    assert!(!cache.negative_hit("demo.dhttp.net", None));
}

#[test]
fn http_backend_module_is_public() {
    let mut cache = http::RecordCache::new();
    assert_eq!(cache.start_lookup("192.0.2.1", 0), http::LookupStart::NoRecordFound);
}

#[test]
fn mdns_module_is_public() {
    let table = mdns::service::HostTable::new("_dhttp.local");
    assert_eq!(table.published_endpoints("demo.dhttp.net"), None);
}

#[test]
fn resolvers_module_is_public() {
    assert_eq!(resolvers::Resolvers::new().text(), "Resolvers(empty)");
}

#[test]
fn publishers_module_is_public() {
    let addresses = publishers::PublishAddresses::new();
    let selected =
        publishers::AddressView::endpoints(&addresses, publishers::AddressSelector::WideArea);
    assert!(selected.is_empty());
}

#[test]
fn facades_offer_the_types_of_their_modules() {
    let addresses: publishers::address::PublishAddresses =
        publishers::PublishAddresses::new();
    assert_eq!(addresses, publishers::PublishAddresses::new());
    assert_eq!(publishers::DEFAULT_PUBLISH_INTERVAL, 20_000_000_000);
    assert_eq!(publishers::DEFAULT_PUBLISH_TIMEOUT, 30_000_000_000);
    assert_eq!(
        resolvers::DnsScheme::parse("h3"),
        Ok(resolvers::scheme::DnsScheme::H3)
    );
    assert_eq!(resolvers::DHTTP_MDNS_SERVICE, "_dhttp.local");
}
