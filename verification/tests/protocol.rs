//! Wire format, signatures and certificate chains.
use ddns::protocol::certificate::{
    is_primary_chain_key, primary_chain_key, secondary_chain_key, CertificateChainKind,
    CertificateSequence,
};
use ddns::protocol::sigin::{
    alg_name_for_scheme, canonical_scheme_for_spki, scheme_for_alg_name, scheme_for_key_kind,
    signature_scheme, signature_scheme_preference, signature_schemes_for_algorithm, verify, SignatureAlgorithm,
    SignatureScheme, SignatureSchemeError, VerifyError,
};
use ddns::protocol::signature::{
    cert_fingerprint_hex, content_digest_value, keyid_for_cert, parse_signature,
    parse_signature_input, signature_base, signature_input_value, signature_value,
    verify_content_digest, SignatureFields, SignatureFieldsError, SigningRequest,
};
use ddns::protocol::wire::{be_multi_response, MultiResponse, ResponseRecord};
use ring::rand::SystemRandom;
use ring::signature::{EcdsaKeyPair, Ed25519KeyPair, ECDSA_P256_SHA256_ASN1_SIGNING};

/// A certificate of an Ed25519 key for alice.genmeta.net, chain 7 of the primary kind.
const ALICE_CERT: &str = "308201353081e8a003020102020101300506032b6570300c310a300806035504030c0174301e170d3234\
    303130313030303030305a170d3434303130313030303030305a300c310a300806035504030c0174302a\
    300506032b6570032100ea4a6c63e29c520abef5507b132ec5f9954776aebebe7b92421eea691446d22c\
    a36f306d301c0603551d11041530138211616c6963652e67656e6d6574612e6e6574304d0603551d0e04\
    460444373a303a3031323334353637383961626364656630313233343536373839616263646566303132\
    3334353637383961626364656630313233343536373839616263646566300506032b65700341004a62c1\
    12ee06b0c53c40940d87a52f07f484862a3de0393e20be5db89910428245fd718977b2de91fc45a2aa05\
    788721c58e8440b16cf88834afed4417c11307";

/// A certificate of the same key for bob.dhttp.net, chain 3 of the secondary kind.
const BOB_CERT: &str = "308201313081e4a003020102020101300506032b6570300c310a300806035504030c0174301e170d3234\
    303130313030303030305a170d3434303130313030303030305a300c310a300806035504030c0174302a\
    300506032b6570032100ea4a6c63e29c520abef5507b132ec5f9954776aebebe7b92421eea691446d22c\
    a36b306930180603551d110411300f820d626f622e64687474702e6e6574304d0603551d0e0446044433\
    3a313a303132333435363738396162636465663031323334353637383961626364656630313233343536\
    37383961626364656630313233343536373839616263646566300506032b6570034100337a37e28fe3e0\
    4388cbd75182c7a751dcdc2fdf5d1c5bc8691f63205bdc8a9189ff812530a6ef3b307574cd66a501ddac\
    f25beacf5848f4e2e5fdcfc8cb3b0c";

/// A certificate of a P-256 key without a subject key identifier.
const P256_CERT: &str = "308201223081c9a003020102020101300a06082a8648ce3d040302300c310a300806035504030c017430\
    1e170d3234303130313030303030305a170d3434303130313030303030305a300c310a30080603550403\
    0c01743059301306072a8648ce3d020106082a8648ce3d030107034200049fad84aeae08bbef7f010014\
    d82cef6a09de2b0cf871b5ce0c4f1d13a59a593407cb45769f1070e2c2470fe5b1bfe63133c0b0cdc64e\
    a4bf3791a8ec2a07fd4fa31c301a30180603551d110411300f820d702e67656e6d6574612e6e6574300a\
    06082a8648ce3d0403020348003045022100842ce0adffbfc578a813cf97f75b7b619e7ebba1f7c52ada\
    0fc9e8b3c93bd10102206715b4ec68efda5458496507cc214a457f68f1e5ad075b1c750d0068b3fe53d2";

const P256_KEY: &str = "308187020100301306072a8648ce3d020106082a8648ce3d030107046d306b0201010420000000000000\
    0000000000000000000000000000000000001234567890abcdefa144034200049fad84aeae08bbef7f01\
    0014d82cef6a09de2b0cf871b5ce0c4f1d13a59a593407cb45769f1070e2c2470fe5b1bfe63133c0b0cd\
    c64ea4bf3791a8ec2a07fd4f";

const ED25519_SPKI: &str = "302a300506032b6570032100ea4a6c63e29c520abef5507b132ec5f9954776aebebe7b92421eea691446\
    d22c";

const P256_SPKI: &str = "3059301306072a8648ce3d020106082a8648ce3d030107034200049fad84aeae08bbef7f010014d82cef\
    6a09de2b0cf871b5ce0c4f1d13a59a593407cb45769f1070e2c2470fe5b1bfe63133c0b0cdc64ea4bf37\
    91a8ec2a07fd4f";

fn bytes(hex: &str) -> Vec<u8> {
    (0..hex.len() / 2)
        .map(|i| u8::from_str_radix(&hex[2 * i..2 * i + 2], 16).unwrap())
        .collect()
}

fn alice_key() -> Ed25519KeyPair {
    Ed25519KeyPair::from_seed_unchecked(&[7; 32]).unwrap()
}

fn signed_by_alice(packet: &[u8]) -> SignatureFields {
    let chain = vec![bytes(ALICE_CERT)];
    let request = SigningRequest::new(packet, &chain, &bytes(ED25519_SPKI), 1_700_000_000).unwrap();
    let signature = alice_key().sign(request.signature_base.as_bytes());
    request.complete(signature.as_ref())
}

#[test]
fn chain_keys_preserve_primary_secondary_wire_flags() {
    let sequence = CertificateSequence::from_small(7);
    let primary = primary_chain_key(sequence);
    let secondary = secondary_chain_key(sequence);

    assert_eq!(primary.kind.kind_flag(), "0");
    assert_eq!(secondary.kind.kind_flag(), "1");
    assert!(is_primary_chain_key(&primary));
    assert!(!is_primary_chain_key(&secondary));
}

#[test]
fn sequences_fit_in_31_bits() {
    assert_eq!(CertificateSequence::new(0x7fff_ffff).unwrap().get(), 0x7fff_ffff);
    assert!(CertificateSequence::new(0x8000_0000).is_none());
    assert!(CertificateSequence::new(u64::MAX).is_none());
}

#[test]
fn chain_labels_name_kind_and_sequence() {
    assert_eq!(primary_chain_key(CertificateSequence::from_small(0)).label(), "primary:0");
    assert_eq!(secondary_chain_key(CertificateSequence::from_small(12)).label(), "secondary:12");
}

#[test]
fn content_digest_uses_sha256_dictionary_value() {
    let value = content_digest_value(b"dns");
    assert!(value.starts_with("sha-256=:"));
    assert!(value.ends_with(':'));
    verify_content_digest(&value, b"dns").unwrap();
    assert!(matches!(
        verify_content_digest(&value, b"changed"),
        Err(SignatureFieldsError::DigestMismatch)
    ));
}

#[test]
fn content_digest_of_nothing_is_the_digest_of_the_empty_string() {
    assert_eq!(
        content_digest_value(b""),
        "sha-256=:47DEQpj8HBSa+/TImW+5JCeuQeRkm5NMpJWZG3hSuFU=:"
    );
}

#[test]
fn malformed_content_digests_are_told_apart() {
    assert_eq!(
        verify_content_digest("sha-512=:abc:", b"dns"),
        Err(SignatureFieldsError::InvalidField { field: "content-digest" })
    );
    assert_eq!(
        verify_content_digest("sha-256=:abc", b"dns"),
        Err(SignatureFieldsError::InvalidField { field: "content-digest" })
    );
    assert_eq!(
        verify_content_digest("sha-256=:!!!:", b"dns"),
        Err(SignatureFieldsError::InvalidBase64)
    );
}

#[test]
fn signature_input_requires_alg_and_keyid() {
    let input = "dns=(\"content-digest\");created=1;keyid=\"sha256:abc\";alg=\"ed25519\"";
    let parsed = parse_signature_input(input).unwrap();
    assert_eq!(parsed.keyid, "sha256:abc");
    assert_eq!(parsed.alg, "ed25519");

    assert!(parse_signature_input("dns=(\"content-digest\");created=1").is_err());
    assert!(parse_signature_input("dns=(\"date\");created=1;alg=\"ed25519\"").is_err());
}

#[test]
fn signature_input_reads_back() {
    let input = signature_input_value(42, "sha256:00ff", "ecdsa-p256-sha256");
    assert_eq!(
        input,
        "dns=(\"content-digest\");created=42;keyid=\"sha256:00ff\";alg=\"ecdsa-p256-sha256\""
    );
    let parsed = parse_signature_input(&input).unwrap();
    assert_eq!(parsed.keyid, "sha256:00ff");
    assert_eq!(parsed.alg, "ecdsa-p256-sha256");
    assert_eq!(parsed.signature_params, &input[4..]);
}

#[test]
fn signature_base_names_digest_and_parameters() {
    let base = signature_base("sha-256=:abc:", "dns=(\"content-digest\");created=1;keyid=\"k\";alg=\"a\"")
        .unwrap();
    assert_eq!(
        base,
        "\"content-digest\": sha-256=:abc:\n\"@signature-params\": (\"content-digest\");created=1;keyid=\"k\";alg=\"a\""
    );
}

#[test]
fn signature_values_read_back() {
    let value = signature_value(&[1, 2, 255]);
    assert_eq!(value, "dns=:AQL/:");
    assert_eq!(parse_signature(&value).unwrap(), vec![1, 2, 255]);
    assert!(matches!(
        parse_signature("sig=:AQL/:"),
        Err(SignatureFieldsError::InvalidField { field: "signature" })
    ));
    assert!(matches!(parse_signature("dns=:*:"), Err(SignatureFieldsError::InvalidBase64)));
}

#[test]
fn alg_names_are_explicitly_mapped() {
    assert_eq!(scheme_for_alg_name("ed25519"), Some(SignatureScheme::ED25519));
    assert_eq!(
        alg_name_for_scheme(SignatureScheme::ECDSA_NISTP256_SHA256),
        Some("ecdsa-p256-sha256")
    );
    assert_eq!(scheme_for_alg_name("unknown"), None);
}

#[test]
fn alg_names_are_unique() {
    for scheme in signature_scheme_preference() {
        let name = alg_name_for_scheme(scheme).unwrap();
        assert_eq!(scheme_for_alg_name(name), Some(scheme));
    }
    assert_eq!(alg_name_for_scheme(SignatureScheme::Unknown(0x0401)), None);
}

#[test]
fn schemes_suit_their_key_algorithm() {
    assert_eq!(
        signature_schemes_for_algorithm(SignatureAlgorithm::ED25519),
        vec![SignatureScheme::ED25519]
    );
    assert_eq!(signature_schemes_for_algorithm(SignatureAlgorithm::RSA).len(), 6);
    assert_eq!(signature_schemes_for_algorithm(SignatureAlgorithm::ECDSA).len(), 2);
    assert_eq!(
        signature_schemes_for_algorithm(SignatureAlgorithm::Other),
        signature_scheme_preference()
    );
}

#[test]
fn public_keys_have_a_canonical_scheme() {
    assert_eq!(canonical_scheme_for_spki(&bytes(ED25519_SPKI)), Some(SignatureScheme::ED25519));
    assert_eq!(
        signature_scheme(&bytes(P256_SPKI)),
        Ok(SignatureScheme::ECDSA_NISTP256_SHA256)
    );
    let error = signature_scheme(b"no key").unwrap_err();
    assert_eq!(error, SignatureSchemeError::UnsupportedKey);
    assert_eq!(error.message(), "unsupported public key type");
}

#[test]
fn keys_are_told_by_their_object_identifiers() {
    let curve = [0x2a, 0x86, 0x48, 0xce, 0x3d, 0x02, 0x01];
    let p256 = vec![0x2a, 0x86, 0x48, 0xce, 0x3d, 0x03, 0x01, 0x07];
    let p384 = vec![0x2b, 0x81, 0x04, 0x00, 0x22];
    let rsa = [0x2a, 0x86, 0x48, 0x86, 0xf7, 0x0d, 0x01, 0x01, 0x01];
    assert_eq!(scheme_for_key_kind(&[0x2b, 0x65, 0x70], &None), Some(SignatureScheme::ED25519));
    assert_eq!(scheme_for_key_kind(&rsa, &None), Some(SignatureScheme::RSA_PSS_SHA512));
    assert_eq!(
        scheme_for_key_kind(&curve, &Some(p256)),
        Some(SignatureScheme::ECDSA_NISTP256_SHA256)
    );
    assert_eq!(
        scheme_for_key_kind(&curve, &Some(p384)),
        Some(SignatureScheme::ECDSA_NISTP384_SHA384)
    );
    assert_eq!(scheme_for_key_kind(&curve, &None), None);
    assert_eq!(scheme_for_key_kind(&curve, &Some(vec![0x2b])), None);

    // The same numbers, one of them written with a leading zero.
    assert_eq!(scheme_for_key_kind(&[0x2b, 0x80, 0x65, 0x70], &None), None);
    let mut padded = bytes(ED25519_SPKI);
    let at = padded.windows(3).position(|part| part == [0x2b, 0x65, 0x70]).unwrap();
    padded.insert(at + 1, 0x80);
    for length in [1, 3, at - 1] {
        padded[length] += 1;
    }
    assert_eq!(canonical_scheme_for_spki(&padded), None);
}

#[test]
fn signatures_are_checked_under_their_scheme() {
    let signature = alice_key().sign(b"data");
    let spki = bytes(ED25519_SPKI);
    assert_eq!(verify(&spki, SignatureScheme::ED25519, b"data", signature.as_ref()), Ok(true));
    assert_eq!(verify(&spki, SignatureScheme::ED25519, b"other", signature.as_ref()), Ok(false));
    assert_eq!(verify(b"no key", SignatureScheme::ED25519, b"data", signature.as_ref()), Ok(false));
    assert_eq!(
        verify(&spki, SignatureScheme::Unknown(9), b"data", signature.as_ref()),
        Err(VerifyError::UnsupportedScheme { scheme: SignatureScheme::Unknown(9) })
    );

    let random = SystemRandom::new();
    let key =
        EcdsaKeyPair::from_pkcs8(&ECDSA_P256_SHA256_ASN1_SIGNING, &bytes(P256_KEY), &random).unwrap();
    let signature = key.sign(&random, b"data").unwrap();
    assert_eq!(
        verify(&bytes(P256_SPKI), SignatureScheme::ECDSA_NISTP256_SHA256, b"data", signature.as_ref()),
        Ok(true)
    );
    assert_eq!(
        verify(&bytes(P256_SPKI), SignatureScheme::ECDSA_NISTP256_SHA256, b"date", signature.as_ref()),
        Ok(false)
    );
}

#[test]
fn fingerprints_are_lowercase_hex() {
    assert_eq!(
        cert_fingerprint_hex(b"abc"),
        "ba7816bf8f01cfea414140de5dae2223b00361a396177a9cb410ff61f20015ad"
    );
    assert_eq!(
        keyid_for_cert(b"abc"),
        "sha256:ba7816bf8f01cfea414140de5dae2223b00361a396177a9cb410ff61f20015ad"
    );
}

#[test]
fn signed_fields_verify() {
    let fields = signed_by_alice(b"packet");
    let cert = bytes(ALICE_CERT);
    assert_eq!(fields.verify(b"packet", &cert), Ok(true));
    assert_eq!(fields.verify(b"changed", &cert), Err(SignatureFieldsError::DigestMismatch));
    assert_eq!(fields.verify(b"packet", &bytes(BOB_CERT)), Ok(false));
    assert_eq!(SignatureFields::empty().verify(b"packet", &cert), Ok(false));
}

#[test]
fn a_signature_over_something_else_is_not_accepted() {
    let chain = vec![bytes(ALICE_CERT)];
    let request = SigningRequest::new(b"packet", &chain, &bytes(ED25519_SPKI), 1).unwrap();
    let fields = request.complete(alice_key().sign(b"something else").as_ref());
    assert_eq!(fields.verify(b"packet", &bytes(ALICE_CERT)), Ok(false));
}

#[test]
fn broken_signature_fields_are_told_apart() {
    let cert = bytes(ALICE_CERT);
    let good = signed_by_alice(b"packet");

    let mut fields = good.clone();
    fields.content_digest = vec![0xff];
    assert_eq!(fields.verify(b"packet", &cert), Err(SignatureFieldsError::InvalidUtf8));

    let mut fields = good.clone();
    fields.signature_input = b"dns=(\"date\")".to_vec();
    assert_eq!(
        fields.verify(b"packet", &cert),
        Err(SignatureFieldsError::InvalidField { field: "signature-input" })
    );

    let mut fields = good.clone();
    let input = signature_input_value(1, &keyid_for_cert(&cert), "rot13");
    fields.signature_input = input.into_bytes();
    assert_eq!(
        fields.verify(b"packet", &cert),
        Err(SignatureFieldsError::UnsupportedAlgorithm { alg: "rot13".to_string() })
    );

    let mut fields = good.clone();
    fields.signature = b"dns=:*:".to_vec();
    assert_eq!(fields.verify(b"packet", &cert), Err(SignatureFieldsError::InvalidBase64));

    let request_chain = vec![b"no certificate".to_vec()];
    let request =
        SigningRequest::new(b"packet", &request_chain, &bytes(ED25519_SPKI), 1).unwrap();
    let fields = request.complete(alice_key().sign(request.signature_base.as_bytes()).as_ref());
    assert!(matches!(
        fields.verify(b"packet", b"no certificate"),
        Err(SignatureFieldsError::InvalidCertificate { .. })
    ));
}

#[test]
fn signing_needs_a_certificate_and_a_known_key() {
    assert_eq!(
        SigningRequest::new(b"packet", &Vec::new(), &bytes(ED25519_SPKI), 1),
        Err(SignatureFieldsError::MissingCertificate)
    );
    assert_eq!(
        SigningRequest::new(b"packet", &vec![bytes(ALICE_CERT)], b"no key", 1),
        Err(SignatureFieldsError::UnsupportedScheme { scheme: SignatureScheme::Unknown(0) })
    );
}

#[test]
fn multi_response_roundtrips() {
    let response = MultiResponse::new(vec![
        ResponseRecord::new(
            SignatureFields {
                content_digest: b"sha-256=:abc:".to_vec(),
                signature_input:
                    b"dns=(\"content-digest\");created=1;keyid=\"sha256:abc\";alg=\"ed25519\""
                        .to_vec(),
                signature: b"dns=:sig:".to_vec(),
            },
            vec![1, 2, 3],
            vec![4, 5],
        ),
        ResponseRecord::unsigned(vec![6, 7, 8, 9], Vec::new()),
    ]);
    let encoded = response.encode();
    let (remain, decoded) = be_multi_response(&encoded).unwrap();
    assert!(remain.is_empty());
    assert_eq!(decoded, response);
}

#[test]
fn responses_are_length_prefixed_in_network_order() {
    let response = MultiResponse::new(vec![ResponseRecord::unsigned(vec![9], vec![8, 7])]);
    let mut expected = vec![0, 0, 0, 1];
    expected.extend([0; 12]);
    expected.extend([0, 0, 0, 1, 9]);
    expected.extend([0, 0, 0, 2, 8, 7]);
    assert_eq!(response.encode(), expected);
    assert_eq!(response.encoding_size(), expected.len());
}

#[test]
fn what_follows_a_response_is_handed_back() {
    let mut encoded = MultiResponse::new(Vec::new()).encode();
    encoded.extend([1, 2]);
    let (remain, decoded) = be_multi_response(&encoded).unwrap();
    assert_eq!(remain, &[1, 2]);
    assert!(decoded.records.is_empty());
}

#[test]
fn cut_off_responses_are_refused() {
    let encoded =
        MultiResponse::new(vec![ResponseRecord::unsigned(vec![9], vec![8, 7])]).encode();
    assert!(be_multi_response(&encoded).is_ok());
    for len in 0..encoded.len() {
        assert!(be_multi_response(&encoded[..len]).is_err());
    }
}

#[test]
fn short_responses_tell_how_much_is_missing() {
    assert_eq!(be_multi_response(&[0, 0]).unwrap_err().needed, 2);
    assert_eq!(be_multi_response(&[0, 0, 0, 1, 0, 0, 0, 5, 1]).unwrap_err().needed, 4);
}

#[test]
fn records_name_the_fingerprint_of_their_certificate() {
    let record = ResponseRecord::unsigned(vec![1], b"abc".to_vec());
    assert_eq!(
        record.cert_fingerprint_hex().as_deref(),
        Some("ba7816bf8f01cfea414140de5dae2223b00361a396177a9cb410ff61f20015ad")
    );
    assert_eq!(ResponseRecord::unsigned(vec![1], Vec::new()).cert_fingerprint_hex(), None);
}

#[test]
fn records_name_the_chain_of_their_certificate() {
    let alice = ResponseRecord::unsigned(Vec::new(), bytes(ALICE_CERT));
    let key = alice.publisher_certificate_chain_key().unwrap();
    assert_eq!(key.kind, CertificateChainKind::Primary);
    assert_eq!(key.sequence.get(), 7);

    let bob = ResponseRecord::unsigned(Vec::new(), bytes(BOB_CERT));
    assert_eq!(bob.publisher_certificate_chain_key().unwrap().label(), "secondary:3");

    let plain = ResponseRecord::unsigned(Vec::new(), bytes(P256_CERT));
    assert_eq!(plain.publisher_certificate_chain_key(), None);
    assert_eq!(ResponseRecord::unsigned(Vec::new(), Vec::new()).publisher_certificate_chain_key(), None);
}
