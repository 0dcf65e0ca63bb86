//! Core engine of an iOS app sideloading toolchain: Mach-O load-command
//! editing, entitlements merging, provisioning-profile handling, bundle-tree
//! ordering, certificate acquisition and the signing pipeline's decisions.
//!
//! Byte-level mutation of Mach-O images is implemented over owned buffers with
//! explicit bounds checks; every operation either succeeds with the stated
//! effect or fails without touching the image.

use vstd::prelude::*;

pub mod bundle;
pub mod cert;
pub mod entitlements;
pub mod macho;
pub mod options;
pub mod provision;
pub mod signer;
pub mod tweak;

verus! {

/// Failure taxonomy of the signing core.
///
/// Parse and capacity errors are fatal to the operation that raised them;
/// the certificate-quota path is the one condition with built-in recovery.
#[derive(Debug, Clone)]
pub enum Error {
    /// Malformed Mach-O, plist or provisioning data.
    Parse,
    /// No room to grow the load-command region.
    Capacity,
    /// A provisioning container without a usable entitlements dictionary.
    ProvisioningEntitlementsUnknown,
    /// A certificate or private key that should exist could not be found.
    CertificatePemMissing,
    /// The account is at its certificate quota and no revocation succeeded.
    CertificateQuota,
    /// A bundle directory without an Info.plist or executable reference.
    BundleInfoPlistMissing,
    /// A developer-API failure with its structured detail preserved.
    DeveloperApi { url: String, result_code: i64, http_code: Option<u32>, message: String },
    /// A tweak file whose extension names no supported kind.
    UnsupportedFileType(String),
    /// Any other failure surfaced by a collaborator.
    Other(String),
}

impl Error {
    /// A short human-readable label for rendering the failure.
    pub fn label(&self) -> (s: &'static str)
        ensures
            (self is Parse) ==> s@ == "malformed input"@,
            (self is Capacity) ==> s@ == "no room in load commands"@,
    {
        match self {
            Error::Parse => "malformed input",
            Error::Capacity => "no room in load commands",
            Error::ProvisioningEntitlementsUnknown => "provisioning entitlements unknown",
            Error::CertificatePemMissing => "certificate or key missing",
            Error::CertificateQuota => "certificate quota exhausted",
            Error::BundleInfoPlistMissing => "Info.plist missing",
            Error::DeveloperApi { .. } => "developer API failure",
            Error::UnsupportedFileType(_) => "unsupported file type",
            Error::Other(_) => "other failure",
        }
    }
}

} // verus!
