//! Certificate identity: PEM resolution, certificate matching by public
//! key, and the certificate-request flow with its bounded
//! revoke-and-retry policy for accounts at their certificate quota.

use vstd::prelude::*;
use vstd::string::*;

use crate::Error;
use crate::entitlements::strings_equal;

verus! {

/// The result-code the developer API uses for "too many certificates".
pub const QUOTA_EXCEEDED_CODE: i64 = 7460;

/// What the PEM parser yields on the given bytes: the list of blocks,
/// each a tag and its decoded contents — a fixed function of the bytes.
pub uninterp spec fn pem_blocks(bytes: Seq<u8>) -> Option<Seq<(Seq<char>, Seq<u8>)>>;

/// The public key carried by a DER certificate — a fixed function of the
/// certificate bytes.
pub uninterp spec fn cert_public_key(der: Seq<u8>) -> Option<Seq<u8>>;

/// The PKCS#1 public key derived from a PKCS#8 private key — a fixed
/// function of the key bytes.
pub uninterp spec fn rsa_public_of(pkcs8_der: Seq<u8>) -> Option<Seq<u8>>;

/// The PKCS#8 PEM encoding of a private key — a fixed function of it.
pub uninterp spec fn pkcs8_pem_of(pkcs8_der: Seq<u8>) -> Option<Seq<char>>;

/// The PKCS#8 DER decoded from a PEM-encoded private key.
pub uninterp spec fn pkcs8_der_of(pem: Seq<char>) -> Option<Seq<u8>>;

/// The PEM certificate-request built from and signed by a private key;
/// RSA signing with SHA-256 is deterministic, so this is a fixed function
/// of the key.
pub uninterp spec fn csr_pem_of(pkcs8_der: Seq<u8>) -> Option<Seq<char>>;

/// The PEM encoding of certificate bytes under the CERTIFICATE label.
pub uninterp spec fn cert_pem_of(der: Seq<u8>) -> Option<Seq<char>>;

/// The views of parsed PEM blocks.
pub open spec fn blocks_view(v: Seq<(String, Vec<u8>)>) -> Seq<(Seq<char>, Seq<u8>)> {
    Seq::new(v.len(), |i: int| (v[i].0@, v[i].1@))
}

/// Relies on pem::parse_many: splits a buffer into its PEM blocks.
#[verifier::external_body]
pub fn pem_parse_many(bytes: &[u8]) -> (r: Option<Vec<(String, Vec<u8>)>>)
    ensures
        r matches Some(v) ==> pem_blocks(bytes@) == Some(blocks_view(v@)),
        r is None ==> pem_blocks(bytes@) is None,
{
    match pem::parse_many(bytes) {
        Ok(blocks) => Some(
            blocks.into_iter().map(|p| (p.tag().to_string(), p.contents().to_vec())).collect(),
        ),
        Err(_) => None,
    }
}

/// Relies on x509_certificate::CapturedX509Certificate::from_der and
/// public_key_data: the public key embedded in a DER certificate.
#[verifier::external_body]
pub fn extract_cert_public_key(der: &[u8]) -> (r: Option<Vec<u8>>)
    ensures
        r matches Some(v) ==> cert_public_key(der@) == Some(v@),
        r is None ==> cert_public_key(der@) is None,
{
    match x509_certificate::X509Certificate::from_der(der) {
        Ok(cert) => Some(cert.public_key_data().to_vec()),
        Err(_) => None,
    }
}

/// Relies on rsa::RsaPrivateKey::new with the operating-system generator:
/// a fresh 2048-bit key as PKCS#8 DER.  The result is random; nothing is
/// promised of its value.
#[verifier::external_body]
pub fn rsa_generate_pkcs8_der() -> (r: Option<Vec<u8>>)
{
    let mut rng = rsa::rand_core::OsRng;
    match rsa::RsaPrivateKey::new(&mut rng, 2048) {
        Ok(k) => rsa::pkcs8::EncodePrivateKey::to_pkcs8_der(&k).ok().map(
            |d| d.as_bytes().to_vec(),
        ),
        Err(_) => None,
    }
}

/// Relies on rsa's PKCS#8 decoding and PKCS#1 public-key encoding: the
/// DER public key belonging to a private key.
#[verifier::external_body]
pub fn rsa_public_key_der(pkcs8_der: &[u8]) -> (r: Option<Vec<u8>>)
    ensures
        r matches Some(v) ==> rsa_public_of(pkcs8_der@) == Some(v@),
        r is None ==> rsa_public_of(pkcs8_der@) is None,
{
    match rsa::pkcs8::DecodePrivateKey::from_pkcs8_der(pkcs8_der) {
        Ok(k) => {
            let k: rsa::RsaPrivateKey = k;
            rsa::pkcs1::EncodeRsaPublicKey::to_pkcs1_der(&k.to_public_key()).ok().map(
                |d| d.as_bytes().to_vec(),
            )
        },
        Err(_) => None,
    }
}

/// Relies on rsa's PKCS#8 PEM encoding of a private key, with the line
/// ending fixed so the result is the same function of the key on every
/// build target.
#[verifier::external_body]
pub fn rsa_pkcs8_pem(pkcs8_der: &[u8]) -> (r: Option<String>)
    ensures
        r matches Some(s) ==> pkcs8_pem_of(pkcs8_der@) == Some(s@),
        r is None ==> pkcs8_pem_of(pkcs8_der@) is None,
{
    match rsa::pkcs8::DecodePrivateKey::from_pkcs8_der(pkcs8_der) {
        Ok(k) => {
            let k: rsa::RsaPrivateKey = k;
            rsa::pkcs8::EncodePrivateKey::to_pkcs8_pem(&k, rsa::pkcs8::LineEnding::LF).ok().map(
                |s| s.to_string(),
            )
        },
        Err(_) => None,
    }
}

/// Relies on rsa's PKCS#8 PEM decoding of a private key.
#[verifier::external_body]
pub fn rsa_pkcs8_from_pem(pem_text: &str) -> (r: Option<Vec<u8>>)
    ensures
        r matches Some(v) ==> pkcs8_der_of(pem_text@) == Some(v@),
        r is None ==> pkcs8_der_of(pem_text@) is None,
{
    match rsa::pkcs8::DecodePrivateKey::from_pkcs8_pem(pem_text) {
        Ok(k) => {
            let k: rsa::RsaPrivateKey = k;
            rsa::pkcs8::EncodePrivateKey::to_pkcs8_der(&k).ok().map(|d| d.as_bytes().to_vec())
        },
        Err(_) => None,
    }
}

/// Relies on rcgen: a self-signed certificate request with placeholder
/// subject fields, signed by the given key with RSA-SHA256.
#[verifier::external_body]
pub fn build_csr_pem(pkcs8_der: &[u8]) -> (r: Option<String>)
    ensures
        r matches Some(s) ==> csr_pem_of(pkcs8_der@) == Some(s@),
        r is None ==> csr_pem_of(pkcs8_der@) is None,
{
    let key_pair = rcgen::KeyPair::from_der(pkcs8_der).ok()?;
    let mut params = rcgen::CertificateParams::new(Vec::new());
    params.alg = &rcgen::PKCS_RSA_SHA256;
    params.key_pair = Some(key_pair);
    let dn = &mut params.distinguished_name;
    dn.push(rcgen::DnType::CountryName, "US");
    dn.push(rcgen::DnType::StateOrProvinceName, "STATE");
    dn.push(rcgen::DnType::LocalityName, "LOCAL");
    dn.push(rcgen::DnType::OrganizationName, "ORGNIZATION");
    dn.push(rcgen::DnType::CommonName, "CN");
    rcgen::Certificate::from_params(params).ok()?.serialize_request_pem().ok()
}

/// Relies on pem_rfc7468::encode_string: PEM under a CERTIFICATE label.
#[verifier::external_body]
pub fn encode_certificate_pem(der: &[u8]) -> (r: Option<String>)
    ensures
        r matches Some(s) ==> cert_pem_of(der@) == Some(s@),
        r is None ==> cert_pem_of(der@) is None,
{
    pem_rfc7468::encode_string("CERTIFICATE", pem_rfc7468::LineEnding::LF, der).ok()
}

/// The contents of the last block carrying `tag`.
pub open spec fn last_block(blocks: Seq<(Seq<char>, Seq<u8>)>, tag: Seq<char>) -> Option<Seq<u8>>
    decreases blocks.len(),
{
    if blocks.len() == 0 {
        None
    } else if blocks.last().0 == tag {
        Some(blocks.last().1)
    } else {
        last_block(blocks.drop_last(), tag)
    }
}

/// The last private-key block: PKCS#8 under PRIVATE KEY (true), PKCS#1
/// under RSA PRIVATE KEY (false).
pub open spec fn last_key_block(blocks: Seq<(Seq<char>, Seq<u8>)>) -> Option<(bool, Seq<u8>)>
    decreases blocks.len(),
{
    if blocks.len() == 0 {
        None
    } else if blocks.last().0 == "PRIVATE KEY"@ {
        Some((true, blocks.last().1))
    } else if blocks.last().0 == "RSA PRIVATE KEY"@ {
        Some((false, blocks.last().1))
    } else {
        last_key_block(blocks.drop_last())
    }
}

/// A private key as it came from its PEM block.
#[derive(Debug)]
pub enum PrivateKeyData {
    Pkcs8(Vec<u8>),
    Pkcs1(Vec<u8>),
}

/// The shape of an optional certificate field.
pub open spec fn cert_field_view(c: Option<Vec<u8>>) -> Option<Seq<u8>> {
    match c {
        Some(v) => Some(v@),
        None => None,
    }
}

/// The shape of an optional key field: the PKCS#8 flag and the bytes.
pub open spec fn key_field_view(k: Option<PrivateKeyData>) -> Option<(bool, Seq<u8>)> {
    match k {
        Some(PrivateKeyData::Pkcs8(v)) => Some((true, v@)),
        Some(PrivateKeyData::Pkcs1(v)) => Some((false, v@)),
        None => None,
    }
}

/// A signing identity: certificate and key travel together — either both
/// are present (signing-capable) or both absent (ad-hoc).
#[derive(Debug)]
pub struct CertificateIdentity {
    pub cert_der: Option<Vec<u8>>,
    pub key: Option<PrivateKeyData>,
    pub machine_id: Option<String>,
    pub serial_number: Option<String>,
    pub p12_data: Option<Vec<u8>>,
}

impl CertificateIdentity {
    /// Whether the identity can sign.
    pub open spec fn signing_capable(&self) -> bool {
        self.cert_der is Some && self.key is Some
    }

    /// An identity with nothing resolved.
    pub fn empty() -> (r: CertificateIdentity)
        ensures
            r.cert_der is None,
            r.key is None,
            r.machine_id is None,
            r.serial_number is None,
            r.p12_data is None,
    {
        CertificateIdentity {
            cert_der: None,
            key: None,
            machine_id: None,
            serial_number: None,
            p12_data: None,
        }
    }

    /// Resolves certificate and key from the PEM blocks of one buffer:
    /// the last CERTIFICATE block fills the certificate, the last PRIVATE
    /// KEY or RSA PRIVATE KEY block fills the key; unrecognized tags are
    /// ignored, not fatal; a field with no matching block keeps what it
    /// held.  Fails only when the buffer is not PEM at all.
    pub fn resolve_certificate_from_contents(&mut self, contents: &[u8]) -> (r: Result<(), Error>)
        ensures
            r is Ok <==> pem_blocks(contents@) is Some,
            r is Err ==> *final(self) == *old(self),
            r is Err ==> (r matches Err(e) && e is Parse),
            r is Ok ==> (pem_blocks(contents@) matches Some(bs) && {
                &&& cert_field_view(final(self).cert_der) == (match last_block(
                    bs,
                    "CERTIFICATE"@,
                ) {
                    Some(c) => Some(c),
                    None => cert_field_view(old(self).cert_der),
                })
                &&& key_field_view(final(self).key) == (match last_key_block(bs) {
                    Some(k) => Some(k),
                    None => key_field_view(old(self).key),
                })
                &&& final(self).machine_id == old(self).machine_id
                &&& final(self).serial_number == old(self).serial_number
                &&& final(self).p12_data == old(self).p12_data
            }),
    {
        let blocks = match pem_parse_many(contents) {
            Some(b) => b,
            None => {
                return Err(Error::Parse);
            },
        };
        let ghost bs = blocks_view(blocks@);
        proof {
            reveal_strlit("CERTIFICATE");
            reveal_strlit("PRIVATE KEY");
            reveal_strlit("RSA PRIVATE KEY");
            assert("CERTIFICATE"@ != "PRIVATE KEY"@) by {
                assert("CERTIFICATE"@[0] == 'C' && "PRIVATE KEY"@[0] == 'P');
            }
            assert("CERTIFICATE"@ != "RSA PRIVATE KEY"@) by {
                assert("CERTIFICATE"@[0] == 'C' && "RSA PRIVATE KEY"@[0] == 'R');
            }
            assert("PRIVATE KEY"@ != "RSA PRIVATE KEY"@) by {
                assert("PRIVATE KEY"@[0] == 'P' && "RSA PRIVATE KEY"@[0] == 'R');
            }
            assert(bs.take(0) =~= Seq::<(Seq<char>, Seq<u8>)>::empty());
        }
        let n = blocks.len();
        let mut i: usize = 0;
        while i < n
            invariant
                i <= n,
                n == blocks@.len(),
                bs == blocks_view(blocks@),
                bs.len() == n,
                "CERTIFICATE"@ != "PRIVATE KEY"@,
                "CERTIFICATE"@ != "RSA PRIVATE KEY"@,
                "PRIVATE KEY"@ != "RSA PRIVATE KEY"@,
                cert_field_view(self.cert_der) == (match last_block(
                    bs.take(i as int),
                    "CERTIFICATE"@,
                ) {
                    Some(c) => Some(c),
                    None => cert_field_view(old(self).cert_der),
                }),
                key_field_view(self.key) == (match last_key_block(bs.take(i as int)) {
                    Some(k) => Some(k),
                    None => key_field_view(old(self).key),
                }),
                self.machine_id == old(self).machine_id,
                self.serial_number == old(self).serial_number,
                self.p12_data == old(self).p12_data,
            decreases n - i,
        {
            proof {
                assert(bs.take(i + 1).drop_last() =~= bs.take(i as int));
                assert(bs.take(i + 1).last() == bs[i as int]);
                assert(bs[i as int] == (blocks@[i as int].0@, blocks@[i as int].1@));
            }
            let tag = blocks[i].0.as_str();
            let m = blocks[i].1.len();
            if strings_equal(tag, "CERTIFICATE") {
                let der = crate::macho::copy_range_public(&blocks[i].1, 0, m);
                assert(der@ =~= blocks@[i as int].1@);
                self.cert_der = Some(der);
            } else if strings_equal(tag, "PRIVATE KEY") {
                let der = crate::macho::copy_range_public(&blocks[i].1, 0, m);
                assert(der@ =~= blocks@[i as int].1@);
                self.key = Some(PrivateKeyData::Pkcs8(der));
            } else if strings_equal(tag, "RSA PRIVATE KEY") {
                let der = crate::macho::copy_range_public(&blocks[i].1, 0, m);
                assert(der@ =~= blocks@[i as int].1@);
                self.key = Some(PrivateKeyData::Pkcs1(der));
            }
            i += 1;
        }
        proof {
            assert(bs.take(n as int) =~= bs);
        }
        Ok(())
    }

    /// Hands the certificate and key out for the signing primitive;
    /// fails unless the identity is signing-capable.
    pub fn signing_parts(&self) -> (r: Result<(&Vec<u8>, &PrivateKeyData), Error>)
        ensures
            r is Ok <==> self.signing_capable(),
            r matches Ok(p) ==> (self.cert_der matches Some(c) && c == *p.0) && (self.key
                matches Some(k) && k == *p.1),
            r matches Err(e) ==> e is CertificatePemMissing,
    {
        match (&self.cert_der, &self.key) {
            (Some(c), Some(k)) => Ok((c, k)),
            _ => Err(Error::CertificatePemMissing),
        }
    }
}

/// One certificate as the team's list describes it.
#[derive(Debug)]
pub struct CertificateRecord {
    pub certificate_id: String,
    pub serial_number: String,
    pub machine_name: Option<String>,
    pub cert_content: Vec<u8>,
}

/// Whether a listed certificate matches our key and machine name.
pub open spec fn record_matches(rec: CertificateRecord, pk: Seq<u8>, name: Seq<char>) -> bool {
    &&& rec.machine_name matches Some(m) && m@ == name
    &&& cert_public_key(rec.cert_content@) == Some(pk)
}

/// Looks for a listed certificate whose machine name matches ours and
/// whose embedded public key equals our key's public part.
pub fn find_certificate(certs: &Vec<CertificateRecord>, own_public_key: &Vec<u8>, machine_name: &str)
    -> (r: Option<usize>)
    ensures
        r matches Some(i) ==> 0 <= i < certs@.len() && record_matches(
            certs@[i as int],
            own_public_key@,
            machine_name@,
        ) && (forall|t: int|
            0 <= t < i ==> !record_matches(
                #[trigger] certs@[t],
                own_public_key@,
                machine_name@,
            )),
        r is None ==> forall|i: int|
            0 <= i < certs@.len() ==> !record_matches(
                #[trigger] certs@[i],
                own_public_key@,
                machine_name@,
            ),
{
    let n = certs.len();
    let mut i: usize = 0;
    while i < n
        invariant
            i <= n,
            n == certs@.len(),
            forall|t: int|
                0 <= t < i ==> !record_matches(
                    #[trigger] certs@[t],
                    own_public_key@,
                    machine_name@,
                ),
        decreases n - i,
    {
        let name_matches = match &certs[i].machine_name {
            Some(m) => strings_equal(m.as_str(), machine_name),
            None => false,
        };
        if name_matches {
            match extract_cert_public_key(certs[i].cert_content.as_slice()) {
                Some(pk) => {
                    if bytes_equal(&pk, own_public_key) {
                        return Some(i);
                    }
                },
                None => {},
            }
        }
        i += 1;
    }
    None
}

/// Compares two byte vectors.
pub fn bytes_equal(a: &Vec<u8>, b: &Vec<u8>) -> (r: bool)
    ensures
        r == (a@ == b@),
{
    let n = a.len();
    let m = b.len();
    if n != m {
        return false;
    }
    let mut i: usize = 0;
    while i < n
        invariant
            i <= n,
            n == a@.len(),
            n == b@.len(),
            forall|t: int| 0 <= t < i ==> a@[t] == b@[t],
        decreases n - i,
    {
        if a[i] != b[i] {
            return false;
        }
        i += 1;
    }
    assert(a@ =~= b@);
    true
}

// ------------------------------------------------------------------
// The certificate-request flow: submit, and on a quota failure revoke
// candidates until one succeeds, then retry the submission once per
// pass; when no revocation succeeds, fail — never loop.
// ------------------------------------------------------------------

/// Where the request flow stands.
#[derive(Debug, Clone, Copy, PartialEq, Eq, Structural)]
pub enum CertFlowPhase {
    Submitting,
    Revoking,
    Done,
    Failed,
}

/// What the surrounding session reported back.
#[derive(Debug)]
pub enum CertFlowEvent {
    SubmitOk { certificate_id: String },
    SubmitQuotaExceeded,
    SubmitOtherError { error: Error },
    RevokeOk,
    RevokeFailed,
}

/// What the surrounding session must do next.  A failure carries the
/// error to surface: the structured API error of a non-quota submission
/// failure verbatim, or the capacity error when the quota path ran out
/// of revocations.
#[derive(Debug)]
pub enum CertFlowAction {
    SubmitCsr,
    Revoke { serial_index: usize },
    FetchCertificate { certificate_id: String },
    Fail { error: Error },
}

/// The request flow's state: the revocation candidates, how far the
/// current revocation pass has come, and whether any revocation in the
/// pass succeeded.
#[derive(Debug)]
pub struct CertFlow {
    pub candidates: usize,
    pub next_candidate: usize,
    pub revoked_any: bool,
    pub phase: CertFlowPhase,
}

impl CertFlow {
    /// The flow's well-formedness: the pass cursor stays in range.
    pub open spec fn wf(&self) -> bool {
        &&& self.phase is Revoking ==> self.next_candidate < self.candidates
    }

    /// A fresh flow about to submit, with `candidates` revocation
    /// candidates known from the team's certificate list.
    pub fn start(candidates: usize) -> (r: CertFlow)
        ensures
            r.wf(),
            r.phase is Submitting,
            r.candidates == candidates,
            !r.revoked_any,
    {
        CertFlow { candidates, next_candidate: 0, revoked_any: false, phase: CertFlowPhase::Submitting }
    }
}

/// The transition function of the flow.
pub open spec fn flow_step_spec(st: CertFlow, ev: CertFlowEvent) -> (CertFlow, CertFlowAction) {
    match st.phase {
        CertFlowPhase::Submitting => match ev {
            CertFlowEvent::SubmitOk { certificate_id } => (
                CertFlow { phase: CertFlowPhase::Done, ..st },
                CertFlowAction::FetchCertificate { certificate_id },
            ),
            CertFlowEvent::SubmitQuotaExceeded => {
                if st.candidates == 0 {
                    (
                        CertFlow { phase: CertFlowPhase::Failed, ..st },
                        CertFlowAction::Fail { error: Error::CertificateQuota },
                    )
                } else {
                    (
                        CertFlow {
                            phase: CertFlowPhase::Revoking,
                            next_candidate: 0,
                            revoked_any: false,
                            ..st
                        },
                        CertFlowAction::Revoke { serial_index: 0 },
                    )
                }
            },
            CertFlowEvent::SubmitOtherError { error } => (
                CertFlow { phase: CertFlowPhase::Failed, ..st },
                CertFlowAction::Fail { error },
            ),
            _ => (st, CertFlowAction::Fail { error: Error::CertificateQuota }),
        },
        CertFlowPhase::Revoking => match ev {
            CertFlowEvent::RevokeOk => {
                if st.next_candidate + 1 < st.candidates {
                    (
                        CertFlow { next_candidate: (st.next_candidate + 1) as usize, revoked_any: true, ..st },
                        CertFlowAction::Revoke { serial_index: (st.next_candidate + 1) as usize },
                    )
                } else {
                    (
                        CertFlow { phase: CertFlowPhase::Submitting, revoked_any: true, ..st },
                        CertFlowAction::SubmitCsr,
                    )
                }
            },
            CertFlowEvent::RevokeFailed => {
                if st.next_candidate + 1 < st.candidates {
                    (
                        CertFlow { next_candidate: (st.next_candidate + 1) as usize, ..st },
                        CertFlowAction::Revoke { serial_index: (st.next_candidate + 1) as usize },
                    )
                } else if st.revoked_any {
                    (CertFlow { phase: CertFlowPhase::Submitting, ..st }, CertFlowAction::SubmitCsr)
                } else {
                    (
                        CertFlow { phase: CertFlowPhase::Failed, ..st },
                        CertFlowAction::Fail { error: Error::CertificateQuota },
                    )
                }
            },
            _ => (st, CertFlowAction::Fail { error: Error::CertificateQuota }),
        },
        _ => (st, CertFlowAction::Fail { error: Error::CertificateQuota }),
    }
}

/// Drives the flow one step.
pub fn flow_step(st: CertFlow, ev: CertFlowEvent) -> (r: (CertFlow, CertFlowAction))
    requires
        st.wf(),
        st.phase is Submitting ==> (ev is SubmitOk || ev is SubmitQuotaExceeded
            || ev is SubmitOtherError),
        st.phase is Revoking ==> (ev is RevokeOk || ev is RevokeFailed),
        !(st.phase is Done),
        !(st.phase is Failed),
    ensures
        r == flow_step_spec(st, ev),
        r.0.wf(),
{
    match st.phase {
        CertFlowPhase::Submitting => match ev {
            CertFlowEvent::SubmitOk { certificate_id } => (
                CertFlow { phase: CertFlowPhase::Done, ..st },
                CertFlowAction::FetchCertificate { certificate_id },
            ),
            CertFlowEvent::SubmitQuotaExceeded => {
                if st.candidates == 0 {
                    (
                        CertFlow { phase: CertFlowPhase::Failed, ..st },
                        CertFlowAction::Fail { error: Error::CertificateQuota },
                    )
                } else {
                    (
                        CertFlow {
                            phase: CertFlowPhase::Revoking,
                            next_candidate: 0,
                            revoked_any: false,
                            ..st
                        },
                        CertFlowAction::Revoke { serial_index: 0 },
                    )
                }
            },
            CertFlowEvent::SubmitOtherError { error } => (
                CertFlow { phase: CertFlowPhase::Failed, ..st },
                CertFlowAction::Fail { error },
            ),
            _ => (st, CertFlowAction::Fail { error: Error::CertificateQuota }),
        },
        CertFlowPhase::Revoking => match ev {
            CertFlowEvent::RevokeOk => {
                if st.next_candidate + 1 < st.candidates {
                    (
                        CertFlow {
                            next_candidate: st.next_candidate + 1,
                            revoked_any: true,
                            ..st
                        },
                        CertFlowAction::Revoke { serial_index: st.next_candidate + 1 },
                    )
                } else {
                    (
                        CertFlow { phase: CertFlowPhase::Submitting, revoked_any: true, ..st },
                        CertFlowAction::SubmitCsr,
                    )
                }
            },
            CertFlowEvent::RevokeFailed => {
                if st.next_candidate + 1 < st.candidates {
                    (
                        CertFlow { next_candidate: st.next_candidate + 1, ..st },
                        CertFlowAction::Revoke { serial_index: st.next_candidate + 1 },
                    )
                } else if st.revoked_any {
                    (
                        CertFlow { phase: CertFlowPhase::Submitting, ..st },
                        CertFlowAction::SubmitCsr,
                    )
                } else {
                    (
                        CertFlow { phase: CertFlowPhase::Failed, ..st },
                        CertFlowAction::Fail { error: Error::CertificateQuota },
                    )
                }
            },
            _ => (st, CertFlowAction::Fail { error: Error::CertificateQuota }),
        },
        _ => (st, CertFlowAction::Fail { error: Error::CertificateQuota }),
    }
}

/// The outcome of one revocation pass, given which revocations succeed:
/// the flow after consuming one revoke event per remaining candidate.
pub open spec fn run_revocation_pass(st: CertFlow, outcomes: Seq<bool>) -> (CertFlow, CertFlowAction)
    decreases outcomes.len(),
{
    if outcomes.len() == 0 {
        (st, CertFlowAction::Fail { error: Error::CertificateQuota })
    } else {
        let ev = if outcomes[0] {
            CertFlowEvent::RevokeOk
        } else {
            CertFlowEvent::RevokeFailed
        };
        let (st2, act) = flow_step_spec(st, ev);
        if outcomes.len() == 1 {
            (st2, act)
        } else {
            run_revocation_pass(st2, outcomes.drop_first())
        }
    }
}

/// A full revocation pass where no revocation succeeds ends the flow:
/// a capacity failure, and no further submission is ever requested.
pub proof fn lemma_pass_all_fail(st: CertFlow, outcomes: Seq<bool>)
    requires
        st.wf(),
        st.phase is Revoking,
        !st.revoked_any,
        outcomes.len() == st.candidates - st.next_candidate,
        forall|i: int| 0 <= i < outcomes.len() ==> !outcomes[i],
    ensures
        run_revocation_pass(st, outcomes).0.phase is Failed,
        run_revocation_pass(st, outcomes).1 == (CertFlowAction::Fail {
            error: Error::CertificateQuota,
        }),
    decreases outcomes.len(),
{
    let ev = CertFlowEvent::RevokeFailed;
    let (st2, act) = flow_step_spec(st, ev);
    if outcomes.len() == 1 {
    } else {
        assert(forall|i: int|
            0 <= i < outcomes.drop_first().len() ==> !#[trigger] outcomes.drop_first()[i]);
        lemma_pass_all_fail(st2, outcomes.drop_first());
    }
}

/// A full revocation pass where some revocation succeeds ends with
/// exactly one retry of the submission.
pub proof fn lemma_pass_some_succeed(st: CertFlow, outcomes: Seq<bool>)
    requires
        st.wf(),
        st.phase is Revoking,
        outcomes.len() == st.candidates - st.next_candidate,
        st.revoked_any || exists|i: int| 0 <= i < outcomes.len() && outcomes[i],
    ensures
        run_revocation_pass(st, outcomes).0.phase is Submitting,
        run_revocation_pass(st, outcomes).1 is SubmitCsr,
    decreases outcomes.len(),
{
    let ev = if outcomes[0] {
        CertFlowEvent::RevokeOk
    } else {
        CertFlowEvent::RevokeFailed
    };
    let (st2, act) = flow_step_spec(st, ev);
    if outcomes.len() == 1 {
    } else {
        if st.revoked_any || outcomes[0] {
            assert(st2.revoked_any);
        } else {
            let i = choose|i: int| 0 <= i < outcomes.len() && outcomes[i];
            assert(outcomes.drop_first()[i - 1]);
        }
        lemma_pass_some_succeed(st2, outcomes.drop_first());
    }
}

} // verus!
