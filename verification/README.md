# x509-path

X.509 certificate **path validation**, verified with Verus: given a leaf
certificate, a set of trusted anchors (a `db`) and a revocation set (a `dbx`),
decide whether the leaf chains to a trusted anchor.

```rust
use x509_path::{validate_chain, Cert, NativeVerifier, Revocations, TrustStore};

let leaf = Cert::from_der(leaf_der)?;
let store = TrustStore::from_ders(&[root_ca_der])?;
let mut dbx = Revocations::empty();
dbx.revoke_der(compromised_cert_der);

match validate_chain(&leaf, &intermediates, &store, &dbx, now_unix, &NativeVerifier) {
    Ok(v) => println!("authorized by {}", v.anchor_subject),
    Err(e) => println!("rejected: {}", e.to_string()),
}
```

## Assurance boundary

Checked: issuer/subject chaining, per-link signature, validity window (against a
caller-supplied time), CA basic constraints on issuers, and revocation by
certificate-DER hash. Not checked: name constraints, extended key usage, policy
constraints, path-length constraints.

## Rejections

The search tries each candidate for an issuer, anchors first. Where none leads to
an anchor, the first rejection is given. Where there was nothing to try, the reason
is a confirmed issuer that is no CA (`NotACa`), the length of the chain
(`ChainTooLong`), a signature that did not verify (`BadSignature`), or that no
issuer is at hand (`NoIssuer`).

## Layout

* `src/path.rs`: `validate_chain`. With a verifier that has one answer to each
  question it accepts a leaf if and only if the leaf chains to an anchor.
* `src/setting.rs`: what a chain to an anchor is (`is_trusted_path`).
* `src/search.rs`: how the search for one ends, and why it fails where it does.
* `src/laws.rs`: what holds of every validation, proved.
* `src/cert.rs`, `src/certificate.rs`, `src/store.rs`, `src/revocations.rs`:
  certificates, anchors and revocations.
* `src/signature.rs`, `src/issuer_key.rs`: the `CertVerifier` seam and
  `NativeVerifier`.
* `src/component.rs`: the validation of encoded certificates in one call.
* `app/`: the WASM component around `src/component.rs`.

## What is trusted

Decoding (`x509-cert`), digests (`sha2`), signature checks (`x509-verify`) and two
object identifiers (`const-oid`) come from outside. Each call stands in a small
function marked `external_body` whose comment says what is claimed of it.

## Your own verifier

`CertVerifier` can be implemented over an HSM. In verified code an implementation
says through `may_answer` which answers it can give; in plain Rust it leaves that
out, and every answer counts as possible.
