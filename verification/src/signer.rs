//! The signing engine's decisions: which sub-bundles are registered,
//! how application groups are named, which provisioning profile serves a
//! bundle, what entitlements are embedded, and which capabilities an
//! entitlements dictionary implies.  The network and filesystem work
//! around these decisions lives with the caller.

use vstd::prelude::*;
use vstd::string::*;

use crate::Error;
use crate::bundle::{Bundle, BundleType};
use crate::cert::CertificateIdentity;
use crate::entitlements::{Dict, GValue, PlistValue, gdict_get, gdict_set, gdict_wf, strings_equal};
use crate::options::{SignerMode, SignerOptions};
use crate::provision::MobileProvision;

verus! {

/// The signer for one operation: the resolved identity, the options, and
/// the profiles fetched during registration.
pub struct Signer {
    pub certificate: Option<CertificateIdentity>,
    pub options: SignerOptions,
    pub provisioning_files: Vec<MobileProvision>,
}

impl Signer {
    /// A signer with no profiles fetched yet.
    pub fn new(certificate: Option<CertificateIdentity>, options: SignerOptions) -> (r: Signer)
        ensures
            r.certificate == certificate,
            r.options == options,
            r.provisioning_files@.len() == 0,
    {
        Signer { certificate, options, provisioning_files: Vec::new() }
    }
}

/// Registration happens only for certificate-backed signing.
pub fn registration_applies(options: &SignerOptions) -> (b: bool)
    ensures
        b == (options.mode is Pem),
{
    options.mode == SignerMode::Pem
}

/// Whether one sub-bundle is a registration unit: it must carry
/// entitlements, and under single-profile embedding only the root does.
pub fn should_register_sub_bundle(options: &SignerOptions, is_root: bool, bundle_type: BundleType)
    -> (b: bool)
    ensures
        b == ((bundle_type is App || bundle_type is AppExtension)
            && (options.embedding.single_profile ==> is_root)),
{
    if options.embedding.single_profile && !is_root {
        return false;
    }
    bundle_type.should_have_entitlements()
}

/// The remote name of an application group: a fresh install suffixes the
/// team identifier; a refresh must reuse the exact existing name.
pub fn group_name_for(group: &str, team_id: &str, is_refresh: bool) -> (r: String)
    ensures
        is_refresh ==> r@ == group@,
        !is_refresh ==> r@ == group@ + "."@ + team_id@,
{
    if is_refresh {
        String::from_str(group)
    } else {
        let mut s = String::from_str(group);
        s.append(".");
        s.append(team_id);
        s
    }
}

/// The identifier a bundle is signed under: an explicit custom identifier
/// wins; else, outside ad-hoc mode with a team known, the original
/// identifier is suffixed with the team identifier to avoid collisions;
/// else the original identifier stands.
pub open spec fn synthesized_identifier(
    mode: SignerMode,
    custom: Option<Seq<char>>,
    original: Option<Seq<char>>,
    team: Option<Seq<char>>,
) -> Option<Seq<char>> {
    match custom {
        Some(c) => Some(c),
        None => {
            if !(mode is Adhoc) {
                match (original, team) {
                    (Some(id), Some(t)) => Some(id + "."@ + t),
                    _ => original,
                }
            } else {
                original
            }
        },
    }
}

/// Computes the identifier to sign under, per the synthesis rule.
pub fn synthesize_identifier(
    mode: SignerMode,
    custom: Option<&str>,
    original: Option<&str>,
    team: Option<&str>,
) -> (r: Option<String>)
    ensures
        (match r {
            Some(s) => Some(s@),
            None => None,
        }) == synthesized_identifier(
            mode,
            match custom {
                Some(c) => Some(c@),
                None => None,
            },
            match original {
                Some(o) => Some(o@),
                None => None,
            },
            match team {
                Some(t) => Some(t@),
                None => None,
            },
        ),
{
    match custom {
        Some(c) => Some(String::from_str(c)),
        None => {
            if mode != SignerMode::Adhoc {
                match (original, team) {
                    (Some(id), Some(t)) => {
                        let mut s = String::from_str(id);
                        s.append(".");
                        s.append(t);
                        Some(s)
                    },
                    (Some(id), None) => Some(String::from_str(id)),
                    _ => None,
                }
            } else {
                match original {
                    Some(id) => Some(String::from_str(id)),
                    None => None,
                }
            }
        },
    }
}

/// The bundle identifier a profile's entitlements derive.
pub open spec fn profile_bundle_id(p: MobileProvision) -> Option<Seq<char>> {
    match gdict_get(p.entitlements_view(), "application-identifier"@) {
        Some(GValue::Text(s)) => Some(
            if crate::entitlements::is_team_prefixed(s) {
                s.skip(11)
            } else {
                s
            },
        ),
        _ => None,
    }
}

/// Whether a profile serves a bundle identifier.
pub open spec fn profile_matches(p: MobileProvision, bundle_id: Seq<char>) -> bool {
    profile_bundle_id(p) == Some(bundle_id)
}

/// Picks the profile for a bundle: the first whose derived identifier
/// matches; else the first profile at all; nothing when none were
/// fetched.
pub fn choose_profile(provs: &Vec<MobileProvision>, bundle_id: &str) -> (r: Option<usize>)
    ensures
        provs@.len() == 0 ==> r is None,
        r matches Some(i) ==> i < provs@.len(),
        r matches Some(i) ==> (profile_matches(provs@[i as int], bundle_id@) || (i == 0
            && forall|j: int|
            0 <= j < provs@.len() ==> !profile_matches(#[trigger] provs@[j], bundle_id@))),
        (provs@.len() > 0 && (exists|j: int|
            0 <= j < provs@.len() && profile_matches(#[trigger] provs@[j], bundle_id@)))
            ==> (r matches Some(i) && profile_matches(provs@[i as int], bundle_id@)),
        provs@.len() > 0 ==> r is Some,
{
    let n = provs.len();
    let mut i: usize = 0;
    while i < n
        invariant
            i <= n,
            n == provs@.len(),
            forall|j: int| 0 <= j < i ==> !profile_matches(#[trigger] provs@[j], bundle_id@),
        decreases n - i,
    {
        let matched = match provs[i].bundle_id() {
            Some(pid) => strings_equal(pid.as_str(), bundle_id),
            None => false,
        };
        if matched {
            return Some(i);
        }
        i += 1;
    }
    if n > 0 {
        Some(0)
    } else {
        None
    }
}

/// Whether signing one bundle goes through a provisioning profile:
/// never in ad-hoc mode, only for entitlement-bearing bundles, and only
/// when registration fetched at least one profile.
pub fn sign_uses_profile(options: &SignerOptions, bundle_type: BundleType, prov_count: usize) -> (b:
    bool)
    ensures
        b == (!(options.mode is Adhoc) && (bundle_type is App || bundle_type is AppExtension)
            && prov_count > 0),
{
    options.mode != SignerMode::Adhoc && bundle_type.should_have_entitlements() && prov_count > 0
}

/// The text of the minimal entitlements: an empty dictionary plist.
pub open spec fn empty_plist_chars() -> Seq<char> {
    "<?xml version=\"1.0\" encoding=\"UTF-8\"?>\n<!DOCTYPE plist PUBLIC \"-//Apple//DTD PLIST 1.0//EN\" \"http://www.apple.com/DTDs/PropertyList-1.0.dtd\">\n<plist version=\"1.0\">\n<dict/>\n</plist>\n"@
}

/// The documented minimal entitlements: an empty dictionary plist, used
/// for ad-hoc signing and non-entitled bundle kinds.
pub fn empty_entitlements_xml() -> (r: &'static str)
    ensures
        r@ == empty_plist_chars(),
{
    let s = "<?xml version=\"1.0\" encoding=\"UTF-8\"?>\n<!DOCTYPE plist PUBLIC \"-//Apple//DTD PLIST 1.0//EN\" \"http://www.apple.com/DTDs/PropertyList-1.0.dtd\">\n<plist version=\"1.0\">\n<dict/>\n</plist>\n";
    proof {
        reveal_strlit(
            "<?xml version=\"1.0\" encoding=\"UTF-8\"?>\n<!DOCTYPE plist PUBLIC \"-//Apple//DTD PLIST 1.0//EN\" \"http://www.apple.com/DTDs/PropertyList-1.0.dtd\">\n<plist version=\"1.0\">\n<dict/>\n</plist>\n",
        );
    }
    s
}

// ------------------------------------------------------------------
// Capability grants implied by an entitlements dictionary.
// ------------------------------------------------------------------

/// One entitlement key a capability covers.
#[derive(Debug)]
pub struct CapabilityEntitlement {
    pub profile_key: String,
}

/// A capability's attributes.
#[derive(Debug)]
pub struct CapabilityAttributes {
    pub entitlements: Option<Vec<CapabilityEntitlement>>,
    pub supports_wildcard: bool,
}

/// One capability the developer API lists.
#[derive(Debug)]
pub struct Capability {
    pub id: String,
    pub attributes: CapabilityAttributes,
}

/// The capability listing.
#[derive(Debug)]
pub struct CapabilitiesResponse {
    pub data: Vec<Capability>,
}

/// Free developer accounts may not request this capability.
pub open spec fn cap_unallowed(id: Seq<char>) -> bool {
    id == "AUTOFILL_CREDENTIAL_PROVIDER"@
}

/// Whether a capability covers some key of the entitlements dictionary.
pub open spec fn cap_covers(cap: Capability, ents: Seq<(Seq<char>, GValue)>) -> bool {
    match cap.attributes.entitlements {
        Some(es) => exists|i: int|
            0 <= i < es@.len() && gdict_get(ents, (#[trigger] es@[i]).profile_key@) is Some,
        None => false,
    }
}

/// The capability identifiers to enable: those allowed on a free account
/// that cover some key of the entitlements, in listing order.
pub open spec fn enabled_caps(caps: Seq<Capability>, ents: Seq<(Seq<char>, GValue)>) -> Seq<
    Seq<char>,
>
    decreases caps,
{
    if caps.len() == 0 {
        Seq::empty()
    } else {
        let prior = enabled_caps(caps.drop_last(), ents);
        let c = caps[caps.len() - 1];
        if !cap_unallowed(c.id@) && cap_covers(c, ents) {
            prior.push(c.id@)
        } else {
            prior
        }
    }
}

/// Whether some entitlement key of `cap` appears in the dictionary.
fn cap_covers_exec(cap: &Capability, ents: &Dict) -> (b: bool)
    ensures
        b == cap_covers(*cap, ents@),
{
    match &cap.attributes.entitlements {
        Some(es) => {
            let n = es.len();
            let mut i: usize = 0;
            while i < n
                invariant
                    i <= n,
                    n == es@.len(),
                    cap.attributes.entitlements matches Some(inner) && inner@ == es@,
                    forall|t: int|
                        0 <= t < i ==> gdict_get(ents@, (#[trigger] es@[t]).profile_key@)
                            is None,
                decreases n - i,
            {
                if ents.contains_key(es[i].profile_key.as_str()) {
                    proof {
                        assert(cap.attributes.entitlements matches Some(inner) && inner@ == es@);
                        assert(cap_covers(*cap, ents@)) by {
                            assert(gdict_get(ents@, (#[trigger] es@[i as int]).profile_key@)
                                is Some);
                        }
                    }
                    return true;
                }
                i += 1;
            }
            false
        },
        None => false,
    }
}

/// Selects the capability identifiers to enable for an entitlements
/// dictionary, skipping what a free account may not request.
pub fn capabilities_to_enable(caps: &Vec<Capability>, ents: &Dict) -> (r: Vec<String>)
    ensures
        r@.map_values(|s: String| s@) == enabled_caps(caps@, ents@),
{
    let n = caps.len();
    let mut r: Vec<String> = Vec::new();
    let mut i: usize = 0;
    proof {
        assert(r@.map_values(|s: String| s@) =~= enabled_caps(caps@.take(0), ents@));
    }
    while i < n
        invariant
            i <= n,
            n == caps@.len(),
            r@.map_values(|s: String| s@) == enabled_caps(caps@.take(i as int), ents@),
        decreases n - i,
    {
        proof {
            assert(caps@.take(i + 1).drop_last() =~= caps@.take(i as int));
            assert(caps@.take(i + 1)[i as int] == caps@[i as int]);
        }
        let allowed = !strings_equal(caps[i].id.as_str(), "AUTOFILL_CREDENTIAL_PROVIDER");
        if allowed && cap_covers_exec(&caps[i], ents) {
            let id = caps[i].id.clone();
            r.push(id);
            assert(r@.map_values(|s: String| s@) =~= enabled_caps(caps@.take(i + 1), ents@));
        } else {
            assert(r@.map_values(|s: String| s@) =~= enabled_caps(caps@.take(i + 1), ents@));
        }
        i += 1;
    }
    proof {
        assert(caps@.take(n as int) =~= caps@);
    }
    r
}

// ------------------------------------------------------------------
// Structured developer-API errors.
// ------------------------------------------------------------------

/// One error detail of a developer-API response.
#[derive(Debug)]
pub struct V1ErrorDetail {
    pub code: String,
    pub detail: Option<String>,
    pub id: String,
    pub result_code: i64,
    pub status: String,
    pub title: Option<String>,
}

/// A developer-API error response.
#[derive(Debug)]
pub struct V1ErrorResponse {
    pub errors: Vec<V1ErrorDetail>,
}

/// Ten to the `n`-th power.
pub open spec fn pow10(n: nat) -> int
    decreases n,
{
    if n == 0 {
        1
    } else {
        10 * pow10((n - 1) as nat)
    }
}

/// Powers of ten grow with the exponent.
pub proof fn lemma_pow10_le(a: nat, b: nat)
    requires
        a <= b,
    ensures
        0 < pow10(a) <= pow10(b),
    decreases b,
{
    if b > 0 {
        if a == b {
            lemma_pow10_le((a - 1) as nat, (b - 1) as nat);
        } else {
            lemma_pow10_le(a, (b - 1) as nat);
        }
    }
}

/// A digit string's value is bounded by the power of its length.
pub proof fn lemma_digits_bound(s: Seq<char>)
    requires
        forall|i: int| 0 <= i < s.len() ==> '0' <= #[trigger] s[i] <= '9',
    ensures
        0 <= digits_value(s) < pow10(s.len()),
    decreases s.len(),
{
    if s.len() > 0 {
        assert(forall|i: int|
            0 <= i < s.drop_last().len() ==> '0' <= #[trigger] s.drop_last()[i] <= '9');
        lemma_digits_bound(s.drop_last());
    }
}

/// The numeric reading of a decimal digit string, or nothing.
pub open spec fn parsed_u32(s: Seq<char>) -> Option<u32>
    decreases s.len(),
{
    if s.len() == 0 || s.len() > 9 {
        None
    } else if !(forall|i: int| 0 <= i < s.len() ==> '0' <= #[trigger] s[i] <= '9') {
        None
    } else {
        Some(digits_value(s) as u32)
    }
}

/// The value of a digit string.
pub open spec fn digits_value(s: Seq<char>) -> int
    decreases s.len(),
{
    if s.len() == 0 {
        0
    } else {
        digits_value(s.drop_last()) * 10 + (s[s.len() - 1] as int - 48)
    }
}

/// Parses a short decimal digit string.
pub fn parse_u32(s: &str) -> (r: Option<u32>)
    ensures
        r == parsed_u32(s@),
{
    let n = s.unicode_len();
    if n == 0 || n > 9 {
        return None;
    }
    let mut acc: u32 = 0;
    let mut i: usize = 0;
    proof {
        assert(digits_value(s@.take(0)) == 0);
        assert(s@.take(0) =~= Seq::<char>::empty());
    }
    while i < n
        invariant
            i <= n,
            n == s@.len(),
            n <= 9,
            forall|t: int| 0 <= t < i ==> '0' <= #[trigger] s@[t] <= '9',
            acc == digits_value(s@.take(i as int)),
            acc < pow10(i as nat),
        decreases n - i,
    {
        let c = s.get_char(i);
        if !(c >= '0' && c <= '9') {
            return None;
        }
        proof {
            assert(s@.take(i + 1).drop_last() =~= s@.take(i as int));
            assert(s@.take(i + 1)[i as int] == s@[i as int]);
            assert(digits_value(s@.take(i + 1)) == acc * 10 + (s@[i as int] as int - 48));
            lemma_pow10_le(i as nat, 8);
            reveal_with_fuel(pow10, 10);
            assert(pow10(8) == 100000000);
            assert(pow10((i + 1) as nat) == 10 * pow10(i as nat));
        }
        acc = acc * 10 + (c as u32 - 48);
        i += 1;
    }
    proof {
        assert(s@.take(n as int) =~= s@);
    }
    Some(acc)
}

impl V1ErrorDetail {
    /// Folds the detail into the library's error type, preserving the
    /// numeric result code, the parsed HTTP status, and the most
    /// specific message available.
    pub fn to_error(&self, url: String) -> (r: Error)
        ensures
            r matches Error::DeveloperApi { url: u, result_code, http_code, message } ==> {
                &&& u@ == url@
                &&& result_code == self.result_code
                &&& http_code == parsed_u32(self.status@)
                &&& (match self.detail {
                    Some(d) => message@ == d@,
                    None => match self.title {
                        Some(t) => message@ == t@,
                        None => message@ == "Unknown API error"@,
                    },
                })
            },
            r is DeveloperApi,
    {
        let message: String = match &self.detail {
            Some(d) => d.clone(),
            None => match &self.title {
                Some(t) => t.clone(),
                None => String::from_str("Unknown API error"),
            },
        };
        let http_code = parse_u32(self.status.as_str());
        Error::DeveloperApi { url, result_code: self.result_code, http_code, message }
    }
}

// ------------------------------------------------------------------
// Phase 1: local bundle modification.
// ------------------------------------------------------------------

/// The Info.plist after the name and version overrides.
pub open spec fn named_versioned(
    info: Seq<(Seq<char>, GValue)>,
    name: Option<Seq<char>>,
    version: Option<Seq<char>>,
) -> Seq<(Seq<char>, GValue)> {
    let s1 = match name {
        Some(nm) => gdict_set(
            gdict_set(info, "CFBundleDisplayName"@, GValue::Text(nm)),
            "CFBundleName"@,
            GValue::Text(nm),
        ),
        None => info,
    };
    match version {
        Some(v) => gdict_set(s1, "CFBundleShortVersionString"@, GValue::Text(v)),
        None => s1,
    }
}

/// The Info.plist after the feature toggles.
pub open spec fn features_applied(
    info: Seq<(Seq<char>, GValue)>,
    f: crate::options::SignerFeatures,
) -> Seq<(Seq<char>, GValue)> {
    let s1 = if f.support_minimum_os_version {
        gdict_set(info, "MinimumOSVersion"@, GValue::Text("7.0"@))
    } else {
        info
    };
    let s2 = if f.support_file_sharing {
        gdict_set(
            gdict_set(s1, "UIFileSharingEnabled"@, GValue::Bool(true)),
            "UISupportsDocumentBrowser"@,
            GValue::Bool(true),
        )
    } else {
        s1
    };
    let s3 = if f.support_ipad_fullscreen {
        gdict_set(s2, "UIRequiresFullScreen"@, GValue::Bool(true))
    } else {
        s2
    };
    let s4 = if f.support_game_mode {
        gdict_set(s3, "GCSupportsGameMode"@, GValue::Bool(true))
    } else {
        s3
    };
    if f.support_pro_motion {
        gdict_set(s4, "CADisableMinimumFrameDurationOnPhone"@, GValue::Bool(true))
    } else {
        s4
    }
}

/// How the custom identifier comes out of phase 1: synthesized from the
/// original identifier and the team exactly when none was given, the mode
/// is not ad-hoc, and both parts are known.
pub open spec fn updated_custom_identifier(
    mode: SignerMode,
    custom: Option<Seq<char>>,
    original: Option<Seq<char>>,
    team: Option<Seq<char>>,
) -> Option<Seq<char>> {
    if !(mode is Adhoc) && custom is None {
        match (original, team) {
            (Some(id), Some(t)) => Some(id + "."@ + t),
            _ => custom,
        }
    } else {
        custom
    }
}

/// What phase 1 does to one bundle tree: the root's Info.plist gets the
/// name and version overrides and the feature flags; when an identifier
/// to sign under is known, the root and every entitled nested bundle have
/// their references to the original identifier rewritten to it.
pub open spec fn phase_one_effect(
    b1: Bundle,
    b2: Bundle,
    name: Option<Seq<char>>,
    version: Option<Seq<char>>,
    feats: crate::options::SignerFeatures,
    orig: Option<Seq<char>>,
    newid: Option<Seq<char>>,
) -> bool {
    let base = features_applied(named_versioned(b1.info@, name, version), feats);
    &&& b2.dir == b1.dir
    &&& b2.bundle_type == b1.bundle_type
    &&& match (orig, newid) {
        (Some(o), Some(nw)) => {
            &&& b2.info@ == (if b1.bundle_type is App || b1.bundle_type is AppExtension {
                crate::bundle::replace_text_entries(base, o, nw)
            } else {
                base
            })
            &&& crate::bundle::rescoped_rel_list(b1.children@, b2.children@, o, nw)
        },
        _ => {
            &&& b2.info@ == base
            &&& b2.children == b1.children
        },
    }
}

impl Signer {
    /// Phase 1 on one bundle tree: applies the name and version overrides
    /// and the feature flags to the root, synthesizes the identifier to
    /// sign under, and rewrites the identifier references of the root and
    /// of every entitled nested bundle to it.  With the mode that leaves
    /// bundles untouched, nothing changes.
    #[verifier::rlimit(100)]
    pub fn modify_bundle(&mut self, bundle: &mut Bundle, team_id: Option<&str>) -> (r: Result<
        (),
        Error,
    >)
        requires
            crate::bundle::tree_wf(*old(bundle)),
        ensures
            r is Ok,
            old(self).options.mode is NoSign ==> *final(bundle) == *old(bundle) && *final(self)
                == *old(self),
            !(old(self).options.mode is NoSign) ==> {
                &&& crate::bundle::tree_wf(*final(bundle))
                &&& final(self).certificate == old(self).certificate
                &&& final(self).provisioning_files == old(self).provisioning_files
                &&& final(self).options.custom_name == old(self).options.custom_name
                &&& final(self).options.custom_version == old(self).options.custom_version
                &&& final(self).options.custom_icon == old(self).options.custom_icon
                &&& final(self).options.custom_entitlements == old(
                    self,
                ).options.custom_entitlements
                &&& final(self).options.features == old(self).options.features
                &&& final(self).options.embedding == old(self).options.embedding
                &&& final(self).options.mode == old(self).options.mode
                &&& final(self).options.install_mode == old(self).options.install_mode
                &&& final(self).options.tweaks == old(self).options.tweaks
                &&& final(self).options.app == old(self).options.app
                &&& final(self).options.refresh == old(self).options.refresh
                &&& (match final(self).options.custom_identifier {
                    Some(c) => Some(c@),
                    None => None,
                }) == updated_custom_identifier(
                    old(self).options.mode,
                    match old(self).options.custom_identifier {
                        Some(c) => Some(c@),
                        None => None,
                    },
                    match gdict_get(old(bundle).info@, "CFBundleIdentifier"@) {
                        Some(GValue::Text(s)) => Some(s),
                        _ => None,
                    },
                    match team_id {
                        Some(t) => Some(t@),
                        None => None,
                    },
                )
                &&& phase_one_effect(
                    *old(bundle),
                    *final(bundle),
                    match old(self).options.custom_name {
                        Some(n) => Some(n@),
                        None => None,
                    },
                    match old(self).options.custom_version {
                        Some(v) => Some(v@),
                        None => None,
                    },
                    old(self).options.features,
                    match gdict_get(old(bundle).info@, "CFBundleIdentifier"@) {
                        Some(GValue::Text(s)) => Some(s),
                        _ => None,
                    },
                    match final(self).options.custom_identifier {
                        Some(c) => Some(c@),
                        None => None,
                    },
                )
            },
    {
        if self.options.mode == SignerMode::NoSign {
            return Ok(());
        }
        let ghost info0 = bundle.info@;
        let original: Option<String> = match bundle.get_bundle_identifier() {
            Some(s) => Some(s.clone()),
            None => None,
        };
        match &self.options.custom_name {
            Some(nm) => {
                let owned = nm.clone();
                bundle.set_name(owned.as_str());
            },
            None => {},
        }
        match &self.options.custom_version {
            Some(v) => {
                let owned = v.clone();
                bundle.set_version(owned.as_str());
            },
            None => {},
        }
        if self.options.features.support_minimum_os_version {
            bundle.set_info_plist_key(
                "MinimumOSVersion",
                crate::entitlements::PlistValue::Text(String::from_str("7.0")),
            );
        }
        if self.options.features.support_file_sharing {
            bundle.set_info_plist_key(
                "UIFileSharingEnabled",
                crate::entitlements::PlistValue::Boolean(true),
            );
            bundle.set_info_plist_key(
                "UISupportsDocumentBrowser",
                crate::entitlements::PlistValue::Boolean(true),
            );
        }
        if self.options.features.support_ipad_fullscreen {
            bundle.set_info_plist_key(
                "UIRequiresFullScreen",
                crate::entitlements::PlistValue::Boolean(true),
            );
        }
        if self.options.features.support_game_mode {
            bundle.set_info_plist_key(
                "GCSupportsGameMode",
                crate::entitlements::PlistValue::Boolean(true),
            );
        }
        if self.options.features.support_pro_motion {
            bundle.set_info_plist_key(
                "CADisableMinimumFrameDurationOnPhone",
                crate::entitlements::PlistValue::Boolean(true),
            );
        }
        proof {
            assert(bundle.info@ == features_applied(
                named_versioned(
                    info0,
                    match self.options.custom_name {
                        Some(n) => Some(n@),
                        None => None,
                    },
                    match self.options.custom_version {
                        Some(v) => Some(v@),
                        None => None,
                    },
                ),
                self.options.features,
            ));
            assert(crate::bundle::tree_wf(*bundle)) by {
                assert(crate::bundle::tree_wf_list(bundle.children@));
            }
        }
        // Identifier synthesis: only when none was chosen, the mode is not
        // ad-hoc, and both the original identifier and the team are known.
        if self.options.mode != SignerMode::Adhoc && self.options.custom_identifier.is_none() {
            match (&original, team_id) {
                (Some(id), Some(t)) => {
                    let mut s = String::from_str(id.as_str());
                    s.append(".");
                    s.append(t);
                    self.options.custom_identifier = Some(s);
                },
                _ => {},
            }
        }
        match (&self.options.custom_identifier, &original) {
            (Some(newid), Some(orig)) => {
                let o = orig.clone();
                let nw = newid.clone();
                let rescoped = crate::bundle::rescope_bundle_tree(&*bundle, o.as_str(), nw.as_str());
                *bundle = rescoped;
            },
            _ => {},
        }
        Ok(())
    }
}

// ------------------------------------------------------------------
// Small pure artifacts of phase 1 and phase 2.
// ------------------------------------------------------------------

/// The icon manifest injected for a custom icon: one primary icon entry
/// naming the written files.
pub open spec fn icon_manifest_shape(ipad: bool) -> GValue {
    GValue::Dict(
        seq![
            (
                "CFBundlePrimaryIcon"@,
                GValue::Dict(
                    seq![
                        (
                            "CFBundleIconFiles"@,
                            GValue::Array(
                                if ipad {
                                    seq![
                                        GValue::Text("FRIcon60x60"@),
                                        GValue::Text("FRIcon76x76"@),
                                    ]
                                } else {
                                    seq![GValue::Text("FRIcon60x60"@)]
                                },
                            ),
                        ),
                        ("CFBundleIconName"@, GValue::Text("FRIcon"@)),
                    ],
                ),
            ),
        ],
    )
}

/// Builds the icon manifest to store under CFBundleIcons (and, with
/// `ipad`, under its iPad variant).
pub fn icon_manifest(ipad: bool) -> (r: PlistValue)
    ensures
        crate::entitlements::value_view(r) == icon_manifest_shape(ipad),
{
    let mut files: Vec<PlistValue> = Vec::new();
    files.push(PlistValue::Text(String::from_str("FRIcon60x60")));
    if ipad {
        files.push(PlistValue::Text(String::from_str("FRIcon76x76")));
    }
    proof {
        crate::entitlements::lemma_values_view(files@);
        if ipad {
            assert(crate::entitlements::values_view(files@) =~= seq![
                GValue::Text("FRIcon60x60"@),
                GValue::Text("FRIcon76x76"@),
            ]);
        } else {
            assert(crate::entitlements::values_view(files@) =~= seq![
                GValue::Text("FRIcon60x60"@),
            ]);
        }
    }
    let mut primary: Vec<(String, PlistValue)> = Vec::new();
    primary.push((String::from_str("CFBundleIconFiles"), PlistValue::Array(files)));
    primary.push((String::from_str("CFBundleIconName"), PlistValue::Text(String::from_str("FRIcon"))));
    proof {
        crate::entitlements::lemma_entries_view(primary@);
        assert(crate::entitlements::entries_view(primary@) =~= icon_manifest_shape(
            ipad,
        )->Dict_0[0].1->Dict_0);
    }
    let mut top: Vec<(String, PlistValue)> = Vec::new();
    top.push((String::from_str("CFBundlePrimaryIcon"), PlistValue::Dict(primary)));
    proof {
        crate::entitlements::lemma_entries_view(top@);
        assert(crate::entitlements::entries_view(top@) =~= icon_manifest_shape(ipad)->Dict_0);
    }
    PlistValue::Dict(top)
}

/// The load-command path for an injected library: under `@rpath`, with
/// the framework directory in between when the library lives in one.
pub fn inject_load_path(file_name: &str, framework_dir: Option<&str>) -> (r: String)
    ensures
        r@ == (match framework_dir {
            Some(d) => "@rpath/"@ + d@ + "/"@ + file_name@,
            None => "@rpath/"@ + file_name@,
        }),
{
    let mut s = String::from_str("@rpath/");
    match framework_dir {
        Some(d) => {
            s.append(d);
            s.append("/");
            s.append(file_name);
        },
        None => {
            s.append(file_name);
        },
    }
    s
}

/// The group list stored under ALTAppGroups: each group suffixed with
/// the team identifier.
pub fn alt_app_groups_value(groups: &Vec<String>, team_id: &str) -> (r: PlistValue)
    ensures
        crate::entitlements::value_view(r) == GValue::Array(
            Seq::new(groups@.len(), |i: int| GValue::Text(groups@[i]@ + "."@ + team_id@)),
        ),
{
    let mut items: Vec<PlistValue> = Vec::new();
    let n = groups.len();
    let mut i: usize = 0;
    while i < n
        invariant
            i <= n,
            n == groups@.len(),
            items@.len() == i,
            forall|t: int|
                0 <= t < i ==> crate::entitlements::value_view(#[trigger] items@[t])
                    == GValue::Text(groups@[t]@ + "."@ + team_id@),
        decreases n - i,
    {
        let mut g = groups[i].clone();
        g.append(".");
        g.append(team_id);
        items.push(PlistValue::Text(g));
        i += 1;
    }
    proof {
        crate::entitlements::lemma_values_view(items@);
        assert(crate::entitlements::values_view(items@) =~= Seq::new(
            groups@.len(),
            |i: int| GValue::Text(groups@[i]@ + "."@ + team_id@),
        ));
    }
    PlistValue::Array(items)
}

/// The application-group identifiers an entitlements dictionary names:
/// the text entries of its application-groups array, in order.
pub open spec fn app_groups_of(ents: Seq<(Seq<char>, GValue)>) -> Option<Seq<Seq<char>>> {
    match gdict_get(ents, "com.apple.security.application-groups"@) {
        Some(GValue::Array(items)) => Some(text_items(items)),
        _ => None,
    }
}

/// The text entries of a value list, in order.
pub open spec fn text_items(items: Seq<GValue>) -> Seq<Seq<char>>
    decreases items,
{
    if items.len() == 0 {
        Seq::empty()
    } else {
        let prior = text_items(items.drop_last());
        match items[items.len() - 1] {
            GValue::Text(s) => prior.push(s),
            _ => prior,
        }
    }
}

/// Reads the application groups out of an entitlements dictionary.
pub fn app_groups_for_entitlements(ents: &Dict) -> (r: Option<Vec<String>>)
    ensures
        r matches Some(v) ==> app_groups_of(ents@) == Some(v@.map_values(|s: String| s@)),
        r is None ==> app_groups_of(ents@) is None,
{
    let items = match ents.get("com.apple.security.application-groups") {
        Some(v) => match v {
            crate::entitlements::PlistValue::Array(items) => items,
            _ => {
                return None;
            },
        },
        None => {
            return None;
        },
    };
    let ghost target = crate::entitlements::values_view(items@);
    let n = items.len();
    let mut out: Vec<String> = Vec::new();
    let mut i: usize = 0;
    proof {
        crate::entitlements::lemma_values_view(items@);
        assert(out@.map_values(|s: String| s@) =~= text_items(target.take(0)));
    }
    while i < n
        invariant
            i <= n,
            n == items@.len(),
            target == crate::entitlements::values_view(items@),
            target.len() == n,
            forall|t: int|
                0 <= t < n ==> #[trigger] target[t] == crate::entitlements::value_view(
                    items@[t],
                ),
            out@.map_values(|s: String| s@) == text_items(target.take(i as int)),
        decreases n - i,
    {
        proof {
            assert(target.take(i + 1).drop_last() =~= target.take(i as int));
            assert(target.take(i + 1)[i as int] == target[i as int]);
        }
        match &items[i] {
            crate::entitlements::PlistValue::Text(s) => {
                let owned = s.clone();
                out.push(owned);
                assert(out@.map_values(|q: String| q@) =~= text_items(target.take(i + 1)));
            },
            _ => {
                assert(out@.map_values(|q: String| q@) =~= text_items(target.take(i + 1)));
            },
        }
        i += 1;
    }
    proof {
        assert(target.take(n as int) =~= target);
    }
    Some(out)
}

/// The flat settings form older front-ends hand to the engine.
#[derive(Debug, Clone)]
pub struct SignerSettings {
    pub custom_name: Option<String>,
    pub custom_identifier: Option<String>,
    pub custom_version: Option<String>,
    pub support_minimum_os_version: bool,
    pub support_file_sharing: bool,
    pub support_ipad_fullscreen: bool,
    pub support_game_mode: bool,
    pub support_pro_motion: bool,
    pub should_embed_provisioning: bool,
    pub should_embed_pairing: bool,
    pub should_embed_p12: bool,
    pub should_only_use_main_provisioning: bool,
    pub remove_url_schemes: bool,
    pub export_ipa: bool,
}

impl Default for SignerSettings {
    /// No overrides, no extra toggles; only profile embedding starts on.
    fn default() -> (r: Self)
        ensures
            r.custom_name is None,
            r.custom_identifier is None,
            r.custom_version is None,
            !r.support_minimum_os_version,
            !r.support_file_sharing,
            !r.support_ipad_fullscreen,
            !r.support_game_mode,
            !r.support_pro_motion,
            r.should_embed_provisioning,
            !r.should_embed_pairing,
            !r.should_embed_p12,
            !r.should_only_use_main_provisioning,
            !r.remove_url_schemes,
            !r.export_ipa,
    {
        SignerSettings {
            custom_name: None,
            custom_identifier: None,
            custom_version: None,
            support_minimum_os_version: false,
            support_file_sharing: false,
            support_ipad_fullscreen: false,
            support_game_mode: false,
            support_pro_motion: false,
            should_embed_provisioning: true,
            should_embed_pairing: false,
            should_embed_p12: false,
            should_only_use_main_provisioning: false,
            remove_url_schemes: false,
            export_ipa: false,
        }
    }
}

/// The nine Info.plist keys phase 1 may write are pairwise distinct.
proof fn lemma_modify_keys_distinct()
    ensures
        "CFBundleDisplayName"@ != "CFBundleName"@,
        "CFBundleDisplayName"@ != "CFBundleShortVersionString"@,
        "CFBundleDisplayName"@ != "MinimumOSVersion"@,
        "CFBundleDisplayName"@ != "UIFileSharingEnabled"@,
        "CFBundleDisplayName"@ != "UISupportsDocumentBrowser"@,
        "CFBundleDisplayName"@ != "UIRequiresFullScreen"@,
        "CFBundleDisplayName"@ != "GCSupportsGameMode"@,
        "CFBundleDisplayName"@ != "CADisableMinimumFrameDurationOnPhone"@,
        "CFBundleName"@ != "CFBundleShortVersionString"@,
        "CFBundleName"@ != "MinimumOSVersion"@,
        "CFBundleName"@ != "UIFileSharingEnabled"@,
        "CFBundleName"@ != "UISupportsDocumentBrowser"@,
        "CFBundleName"@ != "UIRequiresFullScreen"@,
        "CFBundleName"@ != "GCSupportsGameMode"@,
        "CFBundleName"@ != "CADisableMinimumFrameDurationOnPhone"@,
        "CFBundleShortVersionString"@ != "MinimumOSVersion"@,
        "CFBundleShortVersionString"@ != "UIFileSharingEnabled"@,
        "CFBundleShortVersionString"@ != "UISupportsDocumentBrowser"@,
        "CFBundleShortVersionString"@ != "UIRequiresFullScreen"@,
        "CFBundleShortVersionString"@ != "GCSupportsGameMode"@,
        "CFBundleShortVersionString"@ != "CADisableMinimumFrameDurationOnPhone"@,
        "MinimumOSVersion"@ != "UIFileSharingEnabled"@,
        "MinimumOSVersion"@ != "UISupportsDocumentBrowser"@,
        "MinimumOSVersion"@ != "UIRequiresFullScreen"@,
        "MinimumOSVersion"@ != "GCSupportsGameMode"@,
        "MinimumOSVersion"@ != "CADisableMinimumFrameDurationOnPhone"@,
        "UIFileSharingEnabled"@ != "UISupportsDocumentBrowser"@,
        "UIFileSharingEnabled"@ != "UIRequiresFullScreen"@,
        "UIFileSharingEnabled"@ != "GCSupportsGameMode"@,
        "UIFileSharingEnabled"@ != "CADisableMinimumFrameDurationOnPhone"@,
        "UISupportsDocumentBrowser"@ != "UIRequiresFullScreen"@,
        "UISupportsDocumentBrowser"@ != "GCSupportsGameMode"@,
        "UISupportsDocumentBrowser"@ != "CADisableMinimumFrameDurationOnPhone"@,
        "UIRequiresFullScreen"@ != "GCSupportsGameMode"@,
        "UIRequiresFullScreen"@ != "CADisableMinimumFrameDurationOnPhone"@,
        "GCSupportsGameMode"@ != "CADisableMinimumFrameDurationOnPhone"@,
{
    reveal_strlit("CADisableMinimumFrameDurationOnPhone");
    reveal_strlit("CFBundleDisplayName");
    reveal_strlit("CFBundleName");
    reveal_strlit("CFBundleShortVersionString");
    reveal_strlit("GCSupportsGameMode");
    reveal_strlit("MinimumOSVersion");
    reveal_strlit("UIFileSharingEnabled");
    reveal_strlit("UIRequiresFullScreen");
    reveal_strlit("UISupportsDocumentBrowser");
    assert("CADisableMinimumFrameDurationOnPhone"@.len() == 36);
    assert("CFBundleDisplayName"@.len() == 19);
    assert("CFBundleName"@.len() == 12);
    assert("CFBundleShortVersionString"@.len() == 26);
    assert("GCSupportsGameMode"@.len() == 18);
    assert("MinimumOSVersion"@.len() == 16);
    assert("UIFileSharingEnabled"@.len() == 20);
    assert("UIRequiresFullScreen"@.len() == 20);
    assert("UISupportsDocumentBrowser"@.len() == 25);
    assert("UIFileSharingEnabled"@ != "UIRequiresFullScreen"@) by {
        assert("UIFileSharingEnabled"@[2] == 'F' && "UIRequiresFullScreen"@[2] == 'R');
    }
}

/// Applying the phase-1 overrides and flags twice is the same as once:
/// the second pass re-binds every written key to the value it already
/// holds.
pub proof fn lemma_phase_one_info_idempotent(
    s: Seq<(Seq<char>, GValue)>,
    nm: Option<Seq<char>>,
    vs: Option<Seq<char>>,
    f: crate::options::SignerFeatures,
)
    requires
        gdict_wf(s),
    ensures
        gdict_wf(features_applied(named_versioned(s, nm, vs), f)),
        features_applied(
            named_versioned(features_applied(named_versioned(s, nm, vs), f), nm, vs),
            f,
        ) == features_applied(named_versioned(s, nm, vs), f),
{
    lemma_modify_keys_distinct();
    let nmv = GValue::Text(match nm {
        Some(x) => x,
        None => Seq::empty(),
    });
    let vsv = GValue::Text(match vs {
        Some(x) => x,
        None => Seq::empty(),
    });
    let d0 = s;
    let d1 = if nm is Some {
        gdict_set(d0, "CFBundleDisplayName"@, nmv)
    } else {
        d0
    };
    let d2 = if nm is Some {
        gdict_set(d1, "CFBundleName"@, nmv)
    } else {
        d1
    };
    let d3 = if vs is Some {
        gdict_set(d2, "CFBundleShortVersionString"@, vsv)
    } else {
        d2
    };
    let d4 = if f.support_minimum_os_version {
        gdict_set(d3, "MinimumOSVersion"@, GValue::Text("7.0"@))
    } else {
        d3
    };
    let d5 = if f.support_file_sharing {
        gdict_set(d4, "UIFileSharingEnabled"@, GValue::Bool(true))
    } else {
        d4
    };
    let d6 = if f.support_file_sharing {
        gdict_set(d5, "UISupportsDocumentBrowser"@, GValue::Bool(true))
    } else {
        d5
    };
    let d7 = if f.support_ipad_fullscreen {
        gdict_set(d6, "UIRequiresFullScreen"@, GValue::Bool(true))
    } else {
        d6
    };
    let d8 = if f.support_game_mode {
        gdict_set(d7, "GCSupportsGameMode"@, GValue::Bool(true))
    } else {
        d7
    };
    let d9 = if f.support_pro_motion {
        gdict_set(d8, "CADisableMinimumFrameDurationOnPhone"@, GValue::Bool(true))
    } else {
        d8
    };
    let m = d9;
    assert(named_versioned(s, nm, vs) == d3);
    assert(features_applied(d3, f) == m);
    if nm is Some {
        crate::entitlements::lemma_gdict_set_wf(d0, "CFBundleDisplayName"@, nmv);
    }
    if nm is Some {
        crate::entitlements::lemma_gdict_set_wf(d1, "CFBundleName"@, nmv);
    }
    if vs is Some {
        crate::entitlements::lemma_gdict_set_wf(d2, "CFBundleShortVersionString"@, vsv);
    }
    if f.support_minimum_os_version {
        crate::entitlements::lemma_gdict_set_wf(d3, "MinimumOSVersion"@, GValue::Text("7.0"@));
    }
    if f.support_file_sharing {
        crate::entitlements::lemma_gdict_set_wf(d4, "UIFileSharingEnabled"@, GValue::Bool(true));
    }
    if f.support_file_sharing {
        crate::entitlements::lemma_gdict_set_wf(d5, "UISupportsDocumentBrowser"@, GValue::Bool(true));
    }
    if f.support_ipad_fullscreen {
        crate::entitlements::lemma_gdict_set_wf(d6, "UIRequiresFullScreen"@, GValue::Bool(true));
    }
    if f.support_game_mode {
        crate::entitlements::lemma_gdict_set_wf(d7, "GCSupportsGameMode"@, GValue::Bool(true));
    }
    if f.support_pro_motion {
        crate::entitlements::lemma_gdict_set_wf(d8, "CADisableMinimumFrameDurationOnPhone"@, GValue::Bool(true));
    }
    assert(gdict_wf(m));
    if nm is Some {
        crate::entitlements::lemma_gdict_set_get(d0, "CFBundleDisplayName"@, nmv);
        if nm is Some {
            crate::entitlements::lemma_gdict_set_other(d1, "CFBundleName"@, nmv, "CFBundleDisplayName"@);
        }
        if vs is Some {
            crate::entitlements::lemma_gdict_set_other(d2, "CFBundleShortVersionString"@, vsv, "CFBundleDisplayName"@);
        }
        if f.support_minimum_os_version {
            crate::entitlements::lemma_gdict_set_other(d3, "MinimumOSVersion"@, GValue::Text("7.0"@), "CFBundleDisplayName"@);
        }
        if f.support_file_sharing {
            crate::entitlements::lemma_gdict_set_other(d4, "UIFileSharingEnabled"@, GValue::Bool(true), "CFBundleDisplayName"@);
        }
        if f.support_file_sharing {
            crate::entitlements::lemma_gdict_set_other(d5, "UISupportsDocumentBrowser"@, GValue::Bool(true), "CFBundleDisplayName"@);
        }
        if f.support_ipad_fullscreen {
            crate::entitlements::lemma_gdict_set_other(d6, "UIRequiresFullScreen"@, GValue::Bool(true), "CFBundleDisplayName"@);
        }
        if f.support_game_mode {
            crate::entitlements::lemma_gdict_set_other(d7, "GCSupportsGameMode"@, GValue::Bool(true), "CFBundleDisplayName"@);
        }
        if f.support_pro_motion {
            crate::entitlements::lemma_gdict_set_other(d8, "CADisableMinimumFrameDurationOnPhone"@, GValue::Bool(true), "CFBundleDisplayName"@);
        }
        assert(gdict_get(m, "CFBundleDisplayName"@) == Some(nmv));
    }
    if nm is Some {
        crate::entitlements::lemma_gdict_set_get(d1, "CFBundleName"@, nmv);
        if vs is Some {
            crate::entitlements::lemma_gdict_set_other(d2, "CFBundleShortVersionString"@, vsv, "CFBundleName"@);
        }
        if f.support_minimum_os_version {
            crate::entitlements::lemma_gdict_set_other(d3, "MinimumOSVersion"@, GValue::Text("7.0"@), "CFBundleName"@);
        }
        if f.support_file_sharing {
            crate::entitlements::lemma_gdict_set_other(d4, "UIFileSharingEnabled"@, GValue::Bool(true), "CFBundleName"@);
        }
        if f.support_file_sharing {
            crate::entitlements::lemma_gdict_set_other(d5, "UISupportsDocumentBrowser"@, GValue::Bool(true), "CFBundleName"@);
        }
        if f.support_ipad_fullscreen {
            crate::entitlements::lemma_gdict_set_other(d6, "UIRequiresFullScreen"@, GValue::Bool(true), "CFBundleName"@);
        }
        if f.support_game_mode {
            crate::entitlements::lemma_gdict_set_other(d7, "GCSupportsGameMode"@, GValue::Bool(true), "CFBundleName"@);
        }
        if f.support_pro_motion {
            crate::entitlements::lemma_gdict_set_other(d8, "CADisableMinimumFrameDurationOnPhone"@, GValue::Bool(true), "CFBundleName"@);
        }
        assert(gdict_get(m, "CFBundleName"@) == Some(nmv));
    }
    if vs is Some {
        crate::entitlements::lemma_gdict_set_get(d2, "CFBundleShortVersionString"@, vsv);
        if f.support_minimum_os_version {
            crate::entitlements::lemma_gdict_set_other(d3, "MinimumOSVersion"@, GValue::Text("7.0"@), "CFBundleShortVersionString"@);
        }
        if f.support_file_sharing {
            crate::entitlements::lemma_gdict_set_other(d4, "UIFileSharingEnabled"@, GValue::Bool(true), "CFBundleShortVersionString"@);
        }
        if f.support_file_sharing {
            crate::entitlements::lemma_gdict_set_other(d5, "UISupportsDocumentBrowser"@, GValue::Bool(true), "CFBundleShortVersionString"@);
        }
        if f.support_ipad_fullscreen {
            crate::entitlements::lemma_gdict_set_other(d6, "UIRequiresFullScreen"@, GValue::Bool(true), "CFBundleShortVersionString"@);
        }
        if f.support_game_mode {
            crate::entitlements::lemma_gdict_set_other(d7, "GCSupportsGameMode"@, GValue::Bool(true), "CFBundleShortVersionString"@);
        }
        if f.support_pro_motion {
            crate::entitlements::lemma_gdict_set_other(d8, "CADisableMinimumFrameDurationOnPhone"@, GValue::Bool(true), "CFBundleShortVersionString"@);
        }
        assert(gdict_get(m, "CFBundleShortVersionString"@) == Some(vsv));
    }
    if f.support_minimum_os_version {
        crate::entitlements::lemma_gdict_set_get(d3, "MinimumOSVersion"@, GValue::Text("7.0"@));
        if f.support_file_sharing {
            crate::entitlements::lemma_gdict_set_other(d4, "UIFileSharingEnabled"@, GValue::Bool(true), "MinimumOSVersion"@);
        }
        if f.support_file_sharing {
            crate::entitlements::lemma_gdict_set_other(d5, "UISupportsDocumentBrowser"@, GValue::Bool(true), "MinimumOSVersion"@);
        }
        if f.support_ipad_fullscreen {
            crate::entitlements::lemma_gdict_set_other(d6, "UIRequiresFullScreen"@, GValue::Bool(true), "MinimumOSVersion"@);
        }
        if f.support_game_mode {
            crate::entitlements::lemma_gdict_set_other(d7, "GCSupportsGameMode"@, GValue::Bool(true), "MinimumOSVersion"@);
        }
        if f.support_pro_motion {
            crate::entitlements::lemma_gdict_set_other(d8, "CADisableMinimumFrameDurationOnPhone"@, GValue::Bool(true), "MinimumOSVersion"@);
        }
        assert(gdict_get(m, "MinimumOSVersion"@) == Some(GValue::Text("7.0"@)));
    }
    if f.support_file_sharing {
        crate::entitlements::lemma_gdict_set_get(d4, "UIFileSharingEnabled"@, GValue::Bool(true));
        if f.support_file_sharing {
            crate::entitlements::lemma_gdict_set_other(d5, "UISupportsDocumentBrowser"@, GValue::Bool(true), "UIFileSharingEnabled"@);
        }
        if f.support_ipad_fullscreen {
            crate::entitlements::lemma_gdict_set_other(d6, "UIRequiresFullScreen"@, GValue::Bool(true), "UIFileSharingEnabled"@);
        }
        if f.support_game_mode {
            crate::entitlements::lemma_gdict_set_other(d7, "GCSupportsGameMode"@, GValue::Bool(true), "UIFileSharingEnabled"@);
        }
        if f.support_pro_motion {
            crate::entitlements::lemma_gdict_set_other(d8, "CADisableMinimumFrameDurationOnPhone"@, GValue::Bool(true), "UIFileSharingEnabled"@);
        }
        assert(gdict_get(m, "UIFileSharingEnabled"@) == Some(GValue::Bool(true)));
    }
    if f.support_file_sharing {
        crate::entitlements::lemma_gdict_set_get(d5, "UISupportsDocumentBrowser"@, GValue::Bool(true));
        if f.support_ipad_fullscreen {
            crate::entitlements::lemma_gdict_set_other(d6, "UIRequiresFullScreen"@, GValue::Bool(true), "UISupportsDocumentBrowser"@);
        }
        if f.support_game_mode {
            crate::entitlements::lemma_gdict_set_other(d7, "GCSupportsGameMode"@, GValue::Bool(true), "UISupportsDocumentBrowser"@);
        }
        if f.support_pro_motion {
            crate::entitlements::lemma_gdict_set_other(d8, "CADisableMinimumFrameDurationOnPhone"@, GValue::Bool(true), "UISupportsDocumentBrowser"@);
        }
        assert(gdict_get(m, "UISupportsDocumentBrowser"@) == Some(GValue::Bool(true)));
    }
    if f.support_ipad_fullscreen {
        crate::entitlements::lemma_gdict_set_get(d6, "UIRequiresFullScreen"@, GValue::Bool(true));
        if f.support_game_mode {
            crate::entitlements::lemma_gdict_set_other(d7, "GCSupportsGameMode"@, GValue::Bool(true), "UIRequiresFullScreen"@);
        }
        if f.support_pro_motion {
            crate::entitlements::lemma_gdict_set_other(d8, "CADisableMinimumFrameDurationOnPhone"@, GValue::Bool(true), "UIRequiresFullScreen"@);
        }
        assert(gdict_get(m, "UIRequiresFullScreen"@) == Some(GValue::Bool(true)));
    }
    if f.support_game_mode {
        crate::entitlements::lemma_gdict_set_get(d7, "GCSupportsGameMode"@, GValue::Bool(true));
        if f.support_pro_motion {
            crate::entitlements::lemma_gdict_set_other(d8, "CADisableMinimumFrameDurationOnPhone"@, GValue::Bool(true), "GCSupportsGameMode"@);
        }
        assert(gdict_get(m, "GCSupportsGameMode"@) == Some(GValue::Bool(true)));
    }
    if f.support_pro_motion {
        crate::entitlements::lemma_gdict_set_get(d8, "CADisableMinimumFrameDurationOnPhone"@, GValue::Bool(true));
        assert(gdict_get(m, "CADisableMinimumFrameDurationOnPhone"@) == Some(GValue::Bool(true)));
    }
    let e0 = m;
    let e1 = if nm is Some {
        gdict_set(e0, "CFBundleDisplayName"@, nmv)
    } else {
        e0
    };
    let e2 = if nm is Some {
        gdict_set(e1, "CFBundleName"@, nmv)
    } else {
        e1
    };
    let e3 = if vs is Some {
        gdict_set(e2, "CFBundleShortVersionString"@, vsv)
    } else {
        e2
    };
    let e4 = if f.support_minimum_os_version {
        gdict_set(e3, "MinimumOSVersion"@, GValue::Text("7.0"@))
    } else {
        e3
    };
    let e5 = if f.support_file_sharing {
        gdict_set(e4, "UIFileSharingEnabled"@, GValue::Bool(true))
    } else {
        e4
    };
    let e6 = if f.support_file_sharing {
        gdict_set(e5, "UISupportsDocumentBrowser"@, GValue::Bool(true))
    } else {
        e5
    };
    let e7 = if f.support_ipad_fullscreen {
        gdict_set(e6, "UIRequiresFullScreen"@, GValue::Bool(true))
    } else {
        e6
    };
    let e8 = if f.support_game_mode {
        gdict_set(e7, "GCSupportsGameMode"@, GValue::Bool(true))
    } else {
        e7
    };
    let e9 = if f.support_pro_motion {
        gdict_set(e8, "CADisableMinimumFrameDurationOnPhone"@, GValue::Bool(true))
    } else {
        e8
    };
    if nm is Some {
        crate::entitlements::lemma_gdict_set_same(e0, "CFBundleDisplayName"@, nmv);
    }
    assert(e1 == m);
    if nm is Some {
        crate::entitlements::lemma_gdict_set_same(e1, "CFBundleName"@, nmv);
    }
    assert(e2 == m);
    if vs is Some {
        crate::entitlements::lemma_gdict_set_same(e2, "CFBundleShortVersionString"@, vsv);
    }
    assert(e3 == m);
    if f.support_minimum_os_version {
        crate::entitlements::lemma_gdict_set_same(e3, "MinimumOSVersion"@, GValue::Text("7.0"@));
    }
    assert(e4 == m);
    if f.support_file_sharing {
        crate::entitlements::lemma_gdict_set_same(e4, "UIFileSharingEnabled"@, GValue::Bool(true));
    }
    assert(e5 == m);
    if f.support_file_sharing {
        crate::entitlements::lemma_gdict_set_same(e5, "UISupportsDocumentBrowser"@, GValue::Bool(true));
    }
    assert(e6 == m);
    if f.support_ipad_fullscreen {
        crate::entitlements::lemma_gdict_set_same(e6, "UIRequiresFullScreen"@, GValue::Bool(true));
    }
    assert(e7 == m);
    if f.support_game_mode {
        crate::entitlements::lemma_gdict_set_same(e7, "GCSupportsGameMode"@, GValue::Bool(true));
    }
    assert(e8 == m);
    if f.support_pro_motion {
        crate::entitlements::lemma_gdict_set_same(e8, "CADisableMinimumFrameDurationOnPhone"@, GValue::Bool(true));
    }
    assert(e9 == m);
    assert(named_versioned(m, nm, vs) == e3);
    assert(features_applied(e3, f) == e9);
}

} // verus!
