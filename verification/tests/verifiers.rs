//! Verifiers other than the native one.

use rcgen::{
    date_time_ymd, BasicConstraints as RcBasicConstraints, CertificateParams, DnType, IsCa, KeyPair,
};
use x509_path::{validate_chain, Cert, CertVerifier, PathError, Revocations, TrustStore};

const NOW: u64 = 1_700_000_000;

/// Confirms or denies every signature.
struct Always(bool);

impl CertVerifier for Always {
    fn verify_signed_by(&self, _cert: &Cert, _issuer: &Cert) -> bool {
        self.0
    }
}

fn self_signed(cn: &str) -> Vec<u8> {
    let mut p = CertificateParams::new(Vec::<String>::new()).unwrap();
    p.is_ca = IsCa::Ca(RcBasicConstraints::Unconstrained);
    p.not_before = date_time_ymd(2000, 1, 1);
    p.not_after = date_time_ymd(2100, 1, 1);
    p.distinguished_name.push(DnType::CommonName, cn);
    let key = KeyPair::generate().unwrap();
    p.self_signed(&key).unwrap().der().as_ref().to_vec()
}

#[test]
fn the_verifier_decides_on_signatures() {
    // Two certificates of the same name: each names the other as its issuer.
    let anchor = self_signed("Twin");
    let twin = Cert::from_der(&self_signed("Twin")).unwrap();
    let store = TrustStore::from_ders(&[anchor.as_slice()]).unwrap();
    let none = Revocations::empty();

    let v = validate_chain(&twin, &[], &store, &none, NOW, &Always(true)).unwrap();
    assert_eq!(v.chain_len, 1);
    assert_eq!(v.subject, "CN=Twin");
    let err = validate_chain(&twin, &[], &store, &none, NOW, &Always(false)).unwrap_err();
    assert_eq!(err, PathError::BadSignature);

    let verifier: &dyn CertVerifier = &Always(true);
    let v = validate_chain(&twin, &[], &store, &none, NOW, verifier).unwrap();
    assert_eq!(v.chain_len, 1);
}

#[test]
fn many_certificates_that_confirm_each_other_are_searched_quickly() {
    let twins: Vec<Cert> = (0..20)
        .map(|_| Cert::from_der(&self_signed("Twin")).unwrap())
        .collect();
    let leaf = Cert::from_der(&self_signed("Twin")).unwrap();
    let none = Revocations::empty();
    let err =
        validate_chain(&leaf, &twins, &TrustStore::new(), &none, NOW, &Always(true)).unwrap_err();
    assert_eq!(err, PathError::ChainTooLong);

    let mut store = TrustStore::new();
    store.add(twins[19].clone());
    let v = validate_chain(&leaf, &twins, &store, &none, NOW, &Always(true)).unwrap();
    assert_eq!(v.chain_len, 1);
}
