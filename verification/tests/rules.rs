//! Rules of path validation, on freshly issued certificates.

use rcgen::{
    date_time_ymd, BasicConstraints as RcBasicConstraints, CertificateParams, DnType, IsCa, KeyPair,
};
use sha2::{Digest, Sha256};
use x509_cert::der::asn1::BitString;
use x509_cert::der::{Decode, Encode};
use x509_cert::spki::ObjectIdentifier;
use x509_path::certificate::constraints_allow_issuing;
use x509_path::component::{map_err, parse_all, report, Component, Outcome, Reason, Record};
use x509_path::path::MAX_CHAIN;
use x509_path::search::Tally;
use x509_path::{
    validate_chain, Cert, CertVerifier, Extension, NativeVerifier, PathError, Revocations,
    TrustStore, Validated,
};

const NOW: u64 = 1_700_000_000;

/// 2000-01-01 and 2100-01-01, the ends of the validity windows.
const FROM: u64 = 946_684_800;
const UNTIL: u64 = 4_102_444_800;

struct Issued {
    cert: rcgen::Certificate,
    key: KeyPair,
}

impl Issued {
    fn der(&self) -> Vec<u8> {
        self.cert.der().as_ref().to_vec()
    }

    fn parsed(&self) -> Cert {
        Cert::from_der(&self.der()).unwrap()
    }
}

fn params(cn: &str, is_ca: IsCa, until: i32) -> CertificateParams {
    let mut p = CertificateParams::new(Vec::<String>::new()).unwrap();
    p.is_ca = is_ca;
    p.not_before = date_time_ymd(2000, 1, 1);
    p.not_after = date_time_ymd(until, 1, 1);
    p.distinguished_name.push(DnType::CommonName, cn);
    p
}

fn ca() -> IsCa {
    IsCa::Ca(RcBasicConstraints::Unconstrained)
}

fn root_with(cn: &str, is_ca: IsCa, until: i32) -> Issued {
    let key = KeyPair::generate().unwrap();
    let cert = params(cn, is_ca, until).self_signed(&key).unwrap();
    Issued { cert, key }
}

fn root(cn: &str) -> Issued {
    root_with(cn, ca(), 2100)
}

fn issue_with(cn: &str, issuer: &Issued, is_ca: IsCa, until: i32) -> Issued {
    let key = KeyPair::generate().unwrap();
    let cert = params(cn, is_ca, until)
        .signed_by(&key, &issuer.cert, &issuer.key)
        .unwrap();
    Issued { cert, key }
}

fn issue(cn: &str, issuer: &Issued) -> Issued {
    issue_with(cn, issuer, IsCa::NoCa, 2100)
}

fn trusting(anchors: &[&Issued]) -> TrustStore {
    let mut store = TrustStore::new();
    for anchor in anchors {
        store.add(anchor.parsed());
    }
    store
}

fn revoking(certs: &[&Issued]) -> Revocations {
    let mut dbx = Revocations::empty();
    for cert in certs {
        dbx.revoke_der(&cert.der());
    }
    dbx
}

fn validate(
    leaf: &Issued,
    intermediates: &[Cert],
    store: &TrustStore,
    dbx: &Revocations,
    now: u64,
) -> Result<Validated, PathError> {
    validate_chain(&leaf.parsed(), intermediates, store, dbx, now, &NativeVerifier)
}

#[test]
fn parsed_certificate_tells_what_it_holds() {
    let root = root("Root CA");
    let leaf = issue("img", &root);
    let der = leaf.der();
    let cert = Cert::from_der(&der).unwrap();

    assert_eq!(cert.as_der(), der.as_slice());
    assert_eq!(cert.subject(), "CN=img");
    assert_eq!(cert.subject_dn().to_string(), "CN=img");
    assert_eq!(cert.issuer_dn().to_string(), "CN=Root CA");
    assert_eq!(cert.certificate().not_before, FROM);
    assert_eq!(cert.certificate().not_after, UNTIL);
    assert!(!cert.is_self_issued());
    assert!(root.parsed().is_self_issued());
    assert!(cert.names_issuer(&root.parsed()));
    assert!(!root.parsed().names_issuer(&cert));

    let copy = cert.clone();
    assert_eq!(copy.as_der(), cert.as_der());
    assert_eq!(copy.subject(), "CN=img");
    let again = Cert::from_der(cert.as_der()).unwrap();
    assert_eq!(again.fingerprint(), cert.fingerprint());
}

#[test]
fn fingerprint_is_the_sha256_of_the_der() {
    let root = root("Root CA");
    let digest: [u8; 32] = Sha256::digest(root.der()).into();
    assert_eq!(root.parsed().fingerprint(), digest);
}

#[test]
fn bytes_that_are_no_certificate_do_not_parse() {
    let message = x509_cert::Certificate::from_der(&[0x30, 0x00])
        .unwrap_err()
        .to_string();
    assert_eq!(
        Cert::from_der(&[0x30, 0x00]).unwrap_err(),
        PathError::Parse(message)
    );
    let mut longer = root("Root CA").der();
    longer.push(0);
    assert!(matches!(Cert::from_der(&longer), Err(PathError::Parse(_))));
}

#[test]
fn store_is_built_from_ders_or_fails_on_the_first_bad_one() {
    let a = root("A");
    let b = root("B");
    let (da, db) = (a.der(), b.der());
    let store = TrustStore::from_ders(&[da.as_slice(), db.as_slice()]).unwrap();
    assert!(store.is_anchor(&a.parsed()));
    assert!(store.is_anchor(&b.parsed()));
    assert!(!store.is_anchor(&root("A").parsed()));
    assert!(store.clone().is_anchor(&b.parsed()));
    assert!(!TrustStore::default().is_anchor(&a.parsed()));

    let expected = Cert::from_der(&[0x30, 0x00]).unwrap_err();
    let other = Cert::from_der(&[]).unwrap_err();
    assert_ne!(expected, other);
    let bad: [&[u8]; 3] = [da.as_slice(), &[0x30, 0x00], &[]];
    assert_eq!(TrustStore::from_ders(&bad).unwrap_err(), expected);
}

#[test]
fn anchor_for_is_the_first_that_can_end_a_chain() {
    let first = root("Root CA");
    let second = root("Root CA");
    let leaf = issue("img", &second).parsed();
    let none = Revocations::empty();
    let store = trusting(&[&first, &second]);
    let (found, _) = store.anchor_for(&leaf, &none, NOW, &NativeVerifier);
    assert_eq!(found.unwrap().as_der(), second.der().as_slice());

    let lacking = trusting(&[&first]);
    let (found, tally) = lacking.anchor_for(&leaf, &none, NOW, &NativeVerifier);
    assert!(found.is_none());
    assert_eq!(tally.error(0), PathError::BadSignature);
    let (found, tally) = store.anchor_for(&leaf, &revoking(&[&second]), NOW, &NativeVerifier);
    assert!(found.is_none());
    assert_eq!(tally.error(0), PathError::Revoked);
    let (found, tally) = store.anchor_for(&leaf, &none, UNTIL + 1, &NativeVerifier);
    assert!(found.is_none());
    assert_eq!(tally.error(0), PathError::Expired);
}

#[test]
fn tally_gives_the_first_rejection_or_the_gravest_hindrance() {
    assert_eq!(Tally::new().error(0), PathError::NoIssuer);
    assert_eq!(Tally::new().error(MAX_CHAIN), PathError::ChainTooLong);
    let mut tally = Tally::new();
    tally.deny();
    assert_eq!(tally.error(MAX_CHAIN - 1), PathError::BadSignature);
    let mut tally = Tally::new();
    tally.deny();
    assert_eq!(tally.error(MAX_CHAIN), PathError::ChainTooLong);
    let mut tally = Tally::new();
    tally.exclude();
    tally.deny();
    assert_eq!(tally.error(MAX_CHAIN), PathError::NotACa);
    let mut tally = Tally::new();
    tally.exclude();
    tally.reject(PathError::Expired);
    tally.reject(PathError::Revoked);
    assert_eq!(tally.error(0), PathError::Expired);
}

/// Another certificate of the same name and key as `issued`, self-signed.
fn twin(issued: &Issued, cn: &str, is_ca: IsCa, until: i32) -> Cert {
    let cert = params(cn, is_ca, until).self_signed(&issued.key).unwrap();
    Cert::from_der(cert.der()).unwrap()
}

#[test]
fn an_unusable_anchor_does_not_hide_a_good_one() {
    let good = root("Root CA");
    let leaf = issue("img", &good);
    let no_ca = twin(&good, "Root CA", IsCa::ExplicitNoCa, 2100);
    let expired = twin(&good, "Root CA", ca(), 2010);
    let revoked = twin(&good, "Root CA", ca(), 2099);
    let mut dbx = Revocations::empty();
    dbx.revoke(revoked.fingerprint());

    for bad in [&no_ca, &expired, &revoked] {
        assert!(NativeVerifier.verify_signed_by(&leaf.parsed(), bad));
        let mut store = TrustStore::new();
        store.add(bad.clone());
        store.add(good.parsed());
        let v = validate(&leaf, &[], &store, &dbx, NOW).unwrap();
        assert_eq!(v.chain_len, 1);
    }

    // Where all are unusable, the first rejection counts.
    let mut store = TrustStore::new();
    store.add(no_ca.clone());
    store.add(expired);
    store.add(revoked);
    let err = validate(&leaf, &[], &store, &dbx, NOW).unwrap_err();
    assert_eq!(err, PathError::Expired);
    let mut store = TrustStore::new();
    store.add(no_ca);
    let err = validate(&leaf, &[], &store, &dbx, NOW).unwrap_err();
    assert_eq!(err, PathError::NotACa);
}

#[test]
fn an_intermediate_that_leads_nowhere_does_not_hide_a_good_one() {
    let root = root("Root CA");
    let good = issue_with("Inter", &root, ca(), 2100);
    let leaf = issue("img", &good);
    let store = trusting(&[&root]);
    let no_ca = twin(&good, "Inter", IsCa::ExplicitNoCa, 2100);
    let expired = twin(&good, "Inter", ca(), 2010);
    let revoked = twin(&good, "Inter", ca(), 2099);
    let nowhere = self::root("Nowhere");
    let cert = params("Inter", ca(), 2100)
        .signed_by(&good.key, &nowhere.cert, &nowhere.key)
        .unwrap();
    let dead_end = Cert::from_der(cert.der()).unwrap();
    let mut dbx = Revocations::empty();
    dbx.revoke(revoked.fingerprint());

    for bad in [&no_ca, &expired, &revoked, &dead_end] {
        let inters = [bad.clone(), good.parsed()];
        let v = validate(&leaf, &inters, &store, &dbx, NOW).unwrap();
        assert_eq!(v.anchor_subject, "CN=Root CA");
        assert_eq!(v.chain_len, 2);
    }
    for (bad, error) in [
        (&no_ca, PathError::NotACa),
        (&expired, PathError::Expired),
        (&revoked, PathError::Revoked),
        (&dead_end, PathError::NoIssuer),
    ] {
        let err = validate(&leaf, &[bad.clone()], &store, &dbx, NOW).unwrap_err();
        assert_eq!(err, error);
    }
    let err = validate(&leaf, &[no_ca, dead_end, expired], &store, &dbx, NOW).unwrap_err();
    assert_eq!(err, PathError::NoIssuer);
}

#[test]
fn the_first_way_up_is_reported() {
    let near = root("Near");
    let far = root("Far");
    let inter = issue_with("Inter", &far, ca(), 2100);
    // `crossed` has the name and key of `inter`, and is issued by `near`.
    let cert = params("Inter", ca(), 2100)
        .signed_by(&inter.key, &near.cert, &near.key)
        .unwrap();
    let crossed = Cert::from_der(cert.der()).unwrap();
    let leaf = issue("img", &inter);
    let store = trusting(&[&near, &far]);
    let none = Revocations::empty();
    let v = validate(&leaf, &[inter.parsed(), crossed.clone()], &store, &none, NOW).unwrap();
    assert_eq!(v.anchor_subject, "CN=Far");
    let v = validate(&leaf, &[crossed, inter.parsed()], &store, &none, NOW).unwrap();
    assert_eq!(v.anchor_subject, "CN=Near");
}

#[test]
fn a_wider_setting_accepts_no_less() {
    let root = root("Root CA");
    let inter = issue_with("Inter", &root, ca(), 2100);
    let leaf = issue("img", &inter);
    let other = self::root("Root CA");
    let none = Revocations::empty();
    let inters = [inter.parsed()];
    assert!(validate(&leaf, &inters, &trusting(&[&root]), &none, NOW).is_ok());
    let more = [other.parsed(), leaf.parsed(), inter.parsed()];
    assert!(validate(&leaf, &more, &trusting(&[&other, &root]), &none, NOW).is_ok());
}

#[test]
fn validity_window_includes_its_ends() {
    let root = root("Root CA");
    let cert = root.parsed();
    assert!(!cert.valid_at(FROM - 1));
    assert!(cert.valid_at(FROM));
    assert!(cert.valid_at(UNTIL));
    assert!(!cert.valid_at(UNTIL + 1));

    let leaf = issue("img", &root);
    let store = trusting(&[&root]);
    let none = Revocations::empty();
    assert_eq!(validate(&leaf, &[], &store, &none, FROM).unwrap().chain_len, 1);
    assert_eq!(validate(&leaf, &[], &store, &none, UNTIL).unwrap().chain_len, 1);
    for now in [0, FROM - 1, UNTIL + 1, u64::MAX] {
        let err = validate(&leaf, &[], &store, &none, now).unwrap_err();
        assert_eq!(err, PathError::Expired);
    }
}

#[test]
fn accepted_leaf_is_reported_with_its_path() {
    let root = root("Root CA");
    let upper = issue_with("Upper", &root, ca(), 2100);
    let lower = issue_with("Lower", &upper, ca(), 2100);
    let leaf = issue("img", &lower);
    let none = Revocations::empty();
    // The order of the intermediates does not matter here, nor do bystanders.
    let inters = [upper.parsed(), issue("bystander", &root).parsed(), lower.parsed()];
    let v = validate(&leaf, &inters, &trusting(&[&root]), &none, NOW).unwrap();
    assert_eq!(
        v,
        Validated {
            subject: "CN=img".to_string(),
            anchor_subject: "CN=Root CA".to_string(),
            chain_len: 3,
        }
    );
    assert_eq!(v.clone(), v);

    // An intermediate that is itself an anchor ends the chain.
    let v = validate(&leaf, &inters, &trusting(&[&upper]), &none, NOW).unwrap();
    assert_eq!(v.anchor_subject, "CN=Upper");
    assert_eq!(v.chain_len, 2);

    // Without the intermediate there is no path.
    let err = validate(&leaf, &inters[..2], &trusting(&[&root]), &none, NOW).unwrap_err();
    assert_eq!(err, PathError::NoIssuer);
}

#[test]
fn every_certificate_of_the_path_has_to_be_unrevoked() {
    let root = root("Root CA");
    let inter = issue_with("Inter", &root, ca(), 2100);
    let leaf = issue("img", &inter);
    let store = trusting(&[&root]);
    let inters = [inter.parsed()];
    for cert in [&root, &inter, &leaf] {
        let err = validate(&leaf, &inters, &store, &revoking(&[cert]), NOW).unwrap_err();
        assert_eq!(err, PathError::Revoked);
    }
    let dbx = revoking(&[&issue("other", &root)]);
    assert_eq!(validate(&leaf, &inters, &store, &dbx, NOW).unwrap().chain_len, 2);
    assert_eq!(
        validate(&leaf, &inters, &store, &Revocations::default(), NOW),
        validate(&leaf, &inters, &store, &dbx, NOW)
    );
}

#[test]
fn every_certificate_of_the_path_has_to_be_valid() {
    let store_of = |anchor: &Issued| trusting(&[anchor]);
    let none = Revocations::empty();

    let old_root = root_with("Root CA", ca(), 2010);
    let leaf = issue("img", &old_root);
    let err = validate(&leaf, &[], &store_of(&old_root), &none, NOW).unwrap_err();
    assert_eq!(err, PathError::Expired);

    let root = root("Root CA");
    let old_inter = issue_with("Inter", &root, ca(), 2010);
    let leaf = issue("img", &old_inter);
    let err = validate(&leaf, &[old_inter.parsed()], &store_of(&root), &none, NOW).unwrap_err();
    assert_eq!(err, PathError::Expired);
}

#[test]
fn revocation_comes_before_expiry() {
    let root = root("Root CA");
    let leaf = issue_with("img", &root, IsCa::NoCa, 2010);
    let store = trusting(&[&root, &leaf]);
    let err = validate(&leaf, &[], &store, &revoking(&[&leaf]), NOW).unwrap_err();
    assert_eq!(err, PathError::Revoked);
}

#[test]
fn revocations_are_by_fingerprint() {
    let a = root("A").parsed();
    let b = root("B").parsed();
    let mut dbx = Revocations::empty();
    assert!(!dbx.contains(&a));
    let before = dbx.clone();
    dbx.revoke(a.fingerprint());
    assert!(dbx.contains(&a));
    assert!(!dbx.contains(&b));
    assert!(!before.contains(&a));
    assert!(dbx.clone().contains(&a));

    // A fingerprint that differs in one octet revokes something else.
    for i in 0..32 {
        let mut near = a.fingerprint();
        near[i] ^= 1;
        let mut other = Revocations::empty();
        other.revoke(near);
        assert!(!other.contains(&a));
    }
}

#[test]
fn issuers_have_to_be_cas() {
    let root = root("Root CA");
    let none = Revocations::empty();

    // An intermediate that denies being a CA cannot issue.
    let no_ca = issue_with("Inter", &root, IsCa::ExplicitNoCa, 2100);
    let leaf = issue("img", &no_ca);
    assert!(!no_ca.parsed().is_ca());
    let err = validate(&leaf, &[no_ca.parsed()], &trusting(&[&root]), &none, NOW).unwrap_err();
    assert_eq!(err, PathError::NotACa);

    // Nor can an anchor.
    let err = validate(&leaf, &[], &trusting(&[&no_ca]), &none, NOW).unwrap_err();
    assert_eq!(err, PathError::NotACa);
    let err = validate(&leaf, &[], &trusting(&[&no_ca]), &revoking(&[&no_ca]), NOW).unwrap_err();
    assert_eq!(err, PathError::Revoked);

    // As a pinned leaf it needs not issue anything.
    let v = validate(&no_ca, &[], &trusting(&[&no_ca]), &none, NOW).unwrap();
    assert_eq!(v.chain_len, 0);

    // Without basic constraints an issuer is taken for a CA.
    let silent = issue("Inter", &root);
    let leaf = issue("img", &silent);
    assert!(silent.parsed().is_ca());
    let v = validate(&leaf, &[silent.parsed()], &trusting(&[&root]), &none, NOW).unwrap();
    assert_eq!(v.chain_len, 2);
}

#[test]
fn first_basic_constraints_decide() {
    let bc = |value: &[u8]| Extension {
        oid: vec![0x55, 0x1d, 0x13],
        value: value.to_vec(),
    };
    let other = Extension {
        oid: vec![0x55, 0x1d, 0x0f],
        value: vec![],
    };
    let is_ca: &[u8] = &[0x30, 0x03, 0x01, 0x01, 0xff];
    let no_ca: &[u8] = &[0x30, 0x00];
    let broken: &[u8] = &[0x30];

    let mut contents = root("Root CA").parsed().certificate().clone();
    for (extensions, expected) in [
        (None, true),
        (Some(vec![]), true),
        (Some(vec![other.clone()]), true),
        (Some(vec![other.clone(), bc(is_ca)]), true),
        (Some(vec![other.clone(), bc(no_ca)]), false),
        (Some(vec![bc(broken), bc(is_ca)]), false),
        (Some(vec![bc(no_ca), bc(is_ca)]), false),
        (Some(vec![bc(is_ca), bc(no_ca), other]), true),
    ] {
        contents.extensions = extensions;
        assert_eq!(contents.is_ca(), expected);
    }

    assert!(constraints_allow_issuing(Some(true)));
    assert!(!constraints_allow_issuing(Some(false)));
    assert!(!constraints_allow_issuing(None));
}

#[test]
fn chains_are_bounded() {
    let root = root("Root CA");
    let store = trusting(&[&root]);
    let none = Revocations::empty();
    let mut issued = vec![issue_with("CA 0", &root, ca(), 2100)];
    for i in 1..=MAX_CHAIN {
        let next = issue_with(&format!("CA {i}"), &issued[i - 1], ca(), 2100);
        issued.push(next);
    }
    let inters: Vec<Cert> = issued.iter().map(|c| c.parsed()).collect();
    assert_eq!(MAX_CHAIN, 16);

    let leaf = issue("img", &issued[MAX_CHAIN - 1]);
    let v = validate(&leaf, &inters, &store, &none, NOW).unwrap();
    assert_eq!(v.chain_len, MAX_CHAIN + 1);

    let leaf = issue("img", &issued[MAX_CHAIN]);
    let err = validate(&leaf, &inters, &store, &none, NOW).unwrap_err();
    assert_eq!(err, PathError::ChainTooLong);
}

#[test]
fn a_forged_issuer_name_is_not_enough() {
    let real = root("Root CA");
    let rogue = root("Root CA");
    let leaf = issue("img", &rogue);
    let none = Revocations::empty();
    let err = validate(&leaf, &[], &trusting(&[&real]), &none, NOW).unwrap_err();
    assert_eq!(err, PathError::BadSignature);
    let inters = [real.parsed()];
    let err = validate(&leaf, &inters, &TrustStore::new(), &none, NOW).unwrap_err();
    assert_eq!(err, PathError::BadSignature);
    assert!(NativeVerifier.verify_signed_by(&leaf.parsed(), &rogue.parsed()));
    assert!(!NativeVerifier.verify_signed_by(&leaf.parsed(), &real.parsed()));
}

#[test]
fn the_same_question_has_the_same_answer() {
    let root = root("Root CA");
    let rogue = self::root("Root CA");
    let store = trusting(&[&rogue, &root]);
    let none = Revocations::empty();
    for leaf in [issue("img", &root), issue("img", &rogue), issue("img", &issue("x", &root))] {
        let first = validate(&leaf, &[], &store, &none, NOW);
        for _ in 0..3 {
            assert_eq!(validate(&leaf, &[], &store, &none, NOW), first);
        }
    }
}

#[test]
fn a_self_issued_intermediate_does_not_loop() {
    let rogue = root("Rogue Root");
    let none = Revocations::empty();
    let err = validate(&rogue, &[rogue.parsed()], &TrustStore::new(), &none, NOW).unwrap_err();
    assert_eq!(err, PathError::NoIssuer);
}

/// `root`'s certificate with another public key in it.
fn with_key(root: &Issued, algorithm: &str, bits: &[u8]) -> Cert {
    let mut cert = x509_cert::Certificate::from_der(&root.der()).unwrap();
    let spki = &mut cert.tbs_certificate.subject_public_key_info;
    spki.algorithm.oid = ObjectIdentifier::new(algorithm).unwrap();
    spki.algorithm.parameters = None;
    spki.subject_public_key = BitString::from_bytes(bits).unwrap();
    Cert::from_der(&cert.to_der().unwrap()).unwrap()
}

#[test]
fn keys_that_cannot_be_loaded_verify_nothing() {
    let root = root("Root CA");
    let leaf = issue("img", &root).parsed();
    assert!(NativeVerifier.verify_signed_by(&leaf, &root.parsed()));
    let short = with_key(&root, "1.3.101.112", &[1, 2, 3]);
    assert!(!short.certificate().key.is_well_sized());
    assert!(!NativeVerifier.verify_signed_by(&leaf, &short));
    let sized = with_key(&root, "1.3.101.112", &[0; 32]);
    assert!(sized.certificate().key.is_well_sized());
    assert!(!NativeVerifier.verify_signed_by(&leaf, &sized));
    let unknown = with_key(&root, "1.2.3.4", &[1, 2, 3]);
    assert!(unknown.certificate().key.is_well_sized());
    assert!(!NativeVerifier.verify_signed_by(&leaf, &unknown));

    let mut store = TrustStore::new();
    store.add(short);
    let none = Revocations::empty();
    let err = validate_chain(&leaf, &[], &store, &none, NOW, &NativeVerifier).unwrap_err();
    assert_eq!(err, PathError::BadSignature);
}

#[test]
fn only_the_key_of_the_issuer_counts_for_a_signature() {
    let root = root("Root CA");
    let leaf = issue("img", &root).parsed();
    let other = twin(&root, "Other", IsCa::ExplicitNoCa, 2010);
    let key = &root.parsed().certificate().key.clone();
    assert_eq!(other.certificate().key.algorithm, key.algorithm);
    assert_eq!(other.certificate().key.bits, key.bits);
    assert_eq!(other.certificate().key.info, key.info);
    // An elliptic-curve key on P-256: the point has 65 octets.
    assert_eq!(key.algorithm, [0x2a, 0x86, 0x48, 0xce, 0x3d, 0x02, 0x01]);
    assert_eq!(key.bits.len(), 65);
    assert_eq!(key.info[..4], [0x30, 0x59, 0x30, 0x13]);
    assert!(key.info.ends_with(&key.bits));
    assert!(NativeVerifier.verify_signed_by(&leaf, &other));
}

#[test]
fn errors_have_a_text() {
    for (error, text) in [
        (PathError::Parse("a \"b\"\n".to_string()), "Parse(\"a \\\"b\\\"\\n\")"),
        (PathError::Revoked, "Revoked"),
        (PathError::Expired, "Expired"),
        (PathError::NoIssuer, "NoIssuer"),
        (PathError::BadSignature, "BadSignature"),
        (PathError::ChainTooLong, "ChainTooLong"),
        (PathError::NotACa, "NotACa"),
    ] {
        assert_eq!(error.to_string(), text);
        assert_eq!(format!("{:?}", error), text);
        assert_eq!(error.clone(), error);
    }
}

#[test]
fn errors_map_to_reasons() {
    for (error, reason) in [
        (PathError::Parse("x".to_string()), Reason::Parse),
        (PathError::Revoked, Reason::Revoked),
        (PathError::Expired, Reason::Expired),
        (PathError::NoIssuer, Reason::NoIssuer),
        (PathError::BadSignature, Reason::BadSignature),
        (PathError::ChainTooLong, Reason::ChainTooLong),
        (PathError::NotACa, Reason::NotACa),
    ] {
        assert_eq!(report(Err(error.clone())), Outcome::Rejected(reason));
        assert_eq!(map_err(error), reason);
    }
}

#[test]
fn results_are_reported() {
    let validated = Validated {
        subject: "a".to_string(),
        anchor_subject: "b".to_string(),
        chain_len: 3,
    };
    assert_eq!(
        report(Ok(validated)),
        Outcome::Valid(Record {
            subject: "a".to_string(),
            anchor_subject: "b".to_string(),
            chain_len: 3,
        })
    );
}

#[test]
fn parse_all_stops_at_the_first_failure() {
    let a = root("A").der();
    let b = root("B").der();
    let certs = parse_all(&[a.clone(), b.clone()]).unwrap();
    assert_eq!(certs.len(), 2);
    assert_eq!(certs[0].as_der(), a.as_slice());
    assert_eq!(certs[1].as_der(), b.as_slice());
    let expected = Cert::from_der(&[0x30, 0x00]).unwrap_err();
    assert_eq!(
        parse_all(&[a, vec![0x30, 0x00], vec![]]).unwrap_err(),
        expected
    );
}

#[test]
fn component_validates_ders() {
    let root = root("Root CA");
    let inter = issue_with("Inter", &root, ca(), 2100);
    let leaf = issue("img", &inter);
    let call = |leaf: Vec<u8>, inter: Vec<u8>, anchor: Vec<u8>, revoked: Vec<Vec<u8>>, now: u64| {
        Component::validate(leaf, vec![inter], vec![anchor], revoked, now)
    };
    assert_eq!(
        call(leaf.der(), inter.der(), root.der(), vec![vec![1, 2, 3]], NOW),
        Outcome::Valid(Record {
            subject: "CN=img".to_string(),
            anchor_subject: "CN=Root CA".to_string(),
            chain_len: 2,
        })
    );
    for (outcome, reason) in [
        (
            call(vec![], inter.der(), root.der(), vec![], NOW),
            Reason::Parse,
        ),
        (
            call(leaf.der(), vec![], root.der(), vec![], NOW),
            Reason::Parse,
        ),
        (
            call(leaf.der(), inter.der(), vec![], vec![], NOW),
            Reason::Parse,
        ),
        (
            call(leaf.der(), inter.der(), root.der(), vec![vec![], inter.der()], NOW),
            Reason::Revoked,
        ),
        (
            call(leaf.der(), inter.der(), root.der(), vec![], 0),
            Reason::Expired,
        ),
        (
            call(leaf.der(), root.der(), root.der(), vec![], NOW),
            Reason::NoIssuer,
        ),
    ] {
        assert_eq!(outcome, Outcome::Rejected(reason));
    }
}
