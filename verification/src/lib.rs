//! X.509 certificate path validation: does a certificate chain to an anchor
//! that the caller trusts?
//!
//! [`validate_chain`] starts at a leaf certificate and climbs, issuer by
//! issuer, to a certificate in a [`TrustStore`]. Every certificate on the way
//! has to be unrevoked and inside its validity window, every link has to carry
//! a signature that the caller's [`CertVerifier`] confirms, and every issuer
//! has to be allowed to issue. What is not checked: name constraints, extended
//! key usage, policy constraints and path-length constraints.
//!
//! The contracts speak of certificates as mathematical values ([`CertView`]).
//! [`setting::Setting::is_trusted_path`] says what a chain to an anchor is,
//! [`path::may_conclude`] what the outcome of a validation can be. The module
//! [`laws`] proves what holds of every validation, and the module [`terms`] what
//! the terms of the contracts come down to.

pub mod bytes;
pub mod cert;
pub mod certificate;
pub mod component;
pub mod digest;
pub mod error;
pub mod issuer_key;
pub mod laws;
pub mod path;
pub mod revocations;
pub mod search;
pub mod setting;
pub mod signature;
pub mod store;
pub mod terms;

pub use crate::cert::Cert;
pub use crate::cert::CertView;
pub use crate::certificate::Certificate;
pub use crate::certificate::Extension;
pub use crate::certificate::PublicKey;
pub use crate::error::PathError;
pub use crate::path::validate_chain;
pub use crate::path::Validated;
pub use crate::revocations::Revocations;
pub use crate::signature::CertVerifier;
pub use crate::signature::NativeVerifier;
pub use crate::store::TrustStore;
