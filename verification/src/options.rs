//! Signer configuration: feature toggles, embedding and signing modes, and
//! recognition of known sideloading apps from bundle identifiers and names.

use vstd::prelude::*;
use vstd::string::*;

verus! {

/// Holds when `needle` occurs in `hay` starting at index `i`.
pub open spec fn seq_contains_at(hay: Seq<char>, needle: Seq<char>, i: int) -> bool {
    0 <= i && i + needle.len() <= hay.len() && hay.subrange(i, i + needle.len() as int)
        == needle
}

/// Holds when `needle` occurs somewhere in `hay`.
pub open spec fn seq_contains(hay: Seq<char>, needle: Seq<char>) -> bool {
    exists|i: int| seq_contains_at(hay, needle, i)
}

/// Compares `needle` against `hay` at position `i`.
fn str_matches_at(hay: &str, needle: &str, i: usize) -> (b: bool)
    requires
        i + needle@.len() <= hay@.len(),
    ensures
        b == seq_contains_at(hay@, needle@, i as int),
{
    let n = hay.unicode_len();
    let m = needle.unicode_len();
    let mut j: usize = 0;
    while j < m
        invariant
            j <= m,
            n == hay@.len(),
            m == needle@.len(),
            i + m <= hay@.len(),
            forall|t: int| 0 <= t < j ==> hay@[i + t] == needle@[t],
        decreases m - j,
    {
        if hay.get_char(i + j) != needle.get_char(j) {
            assert(!seq_contains_at(hay@, needle@, i as int)) by {
                assert(hay@.subrange(i as int, i + m as int)[j as int] == hay@[i + j]);
            }
            return false;
        }
        j += 1;
    }
    assert(hay@.subrange(i as int, i + m as int) =~= needle@);
    true
}

/// Substring search; returns whether `needle` occurs in `hay`.
pub fn str_contains(hay: &str, needle: &str) -> (b: bool)
    ensures
        b == seq_contains(hay@, needle@),
{
    let n = hay.unicode_len();
    let m = needle.unicode_len();
    if m > n {
        return false;
    }
    if m == 0 {
        assert(seq_contains_at(hay@, needle@, 0)) by {
            assert(hay@.subrange(0, 0) =~= needle@);
        }
        return true;
    }
    let mut i: usize = 0;
    while i <= n - m
        invariant
            1 <= m <= n,
            n == hay@.len(),
            m == needle@.len(),
            i <= n - m + 1,
            forall|k: int| 0 <= k < i ==> !seq_contains_at(hay@, needle@, k),
        decreases n - m - i + 1,
    {
        if str_matches_at(hay, needle, i) {
            return true;
        }
        i += 1;
    }
    false
}

/// Lower-cases an ASCII letter; leaves every other character unchanged.
pub open spec fn lower_ascii_char(c: char) -> char {
    if 65 <= c as u32 <= 90 {
        ((c as u8) + 32) as char
    } else {
        c
    }
}

/// Holds for ASCII letters and digits.
pub open spec fn is_ascii_alnum(c: char) -> bool {
    (48 <= c as u32 <= 57) || (65 <= c as u32 <= 90) || (97 <= c as u32 <= 122)
}

/// ASCII-lower-cases a name, then keeps only its ASCII letters and digits.
pub open spec fn normalized_name(s: Seq<char>) -> Seq<char>
    decreases s.len(),
{
    if s.len() == 0 {
        Seq::empty()
    } else {
        let prior = normalized_name(s.drop_last());
        let c = lower_ascii_char(s.last());
        if is_ascii_alnum(c) {
            prior.push(c)
        } else {
            prior
        }
    }
}

/// Builds the normalized form of a display name as characters.
fn normalize_name(name: &str) -> (v: Vec<char>)
    ensures
        v@ == normalized_name(name@),
{
    let n = name.unicode_len();
    let mut v: Vec<char> = Vec::new();
    let mut i: usize = 0;
    while i < n
        invariant
            i <= n,
            n == name@.len(),
            v@ == normalized_name(name@.take(i as int)),
        decreases n - i,
    {
        let c = name.get_char(i);
        let lower: char = if c >= 'A' && c <= 'Z' {
            ((c as u8) + 32) as char
        } else {
            c
        };
        assert(lower == lower_ascii_char(c));
        if (lower >= '0' && lower <= '9') || (lower >= 'a' && lower <= 'z') {
            v.push(lower);
        }
        assert(name@.take(i + 1).drop_last() =~= name@.take(i as int));
        assert(name@.take(i + 1).last() == name@[i as int]);
        i += 1;
    }
    assert(name@.take(n as int) =~= name@);
    v
}

/// Compares `needle` against the characters of `hay` at position `i`.
fn chars_match_at(hay: &Vec<char>, needle: &str, i: usize) -> (b: bool)
    requires
        i + needle@.len() <= hay@.len(),
    ensures
        b == seq_contains_at(hay@, needle@, i as int),
{
    let n = hay.len();
    let m = needle.unicode_len();
    let mut j: usize = 0;
    while j < m
        invariant
            j <= m,
            n == hay@.len(),
            m == needle@.len(),
            i + m <= hay@.len(),
            forall|t: int| 0 <= t < j ==> hay@[i + t] == needle@[t],
        decreases m - j,
    {
        if hay[i + j] != needle.get_char(j) {
            assert(!seq_contains_at(hay@, needle@, i as int)) by {
                assert(hay@.subrange(i as int, i + m as int)[j as int] == hay@[i + j]);
            }
            return false;
        }
        j += 1;
    }
    assert(hay@.subrange(i as int, i + m as int) =~= needle@);
    true
}

/// Substring search over a character vector.
fn chars_contain(hay: &Vec<char>, needle: &str) -> (b: bool)
    ensures
        b == seq_contains(hay@, needle@),
{
    let n = hay.len();
    let m = needle.unicode_len();
    if m > n {
        return false;
    }
    if m == 0 {
        assert(seq_contains_at(hay@, needle@, 0)) by {
            assert(hay@.subrange(0, 0) =~= needle@);
        }
        return true;
    }
    let mut i: usize = 0;
    while i <= n - m
        invariant
            1 <= m <= n,
            n == hay@.len(),
            m == needle@.len(),
            i <= n - m + 1,
            forall|k: int| 0 <= k < i ==> !seq_contains_at(hay@, needle@, k),
        decreases n - m - i + 1,
    {
        if chars_match_at(hay, needle, i) {
            return true;
        }
        i += 1;
    }
    false
}

/// Supported app types.
#[derive(Debug, Clone, Copy, PartialEq, Eq, Structural)]
pub enum SignerApp {
    Default,
    Antrag,
    Feather,
    Protokolle,
    AltStore,
    SideStore,
    LiveContainer,
    LiveContainerAndSideStore,
    StikDebug,
    SparseBox,
    EnsWilde,
    ByeTunes,
}

/// Which app a bundle identifier denotes, by its known marker substrings.
pub open spec fn app_for_identifier(id: Seq<char>) -> SignerApp {
    if seq_contains(id, "com.kdt.livecontainer"@) {
        SignerApp::LiveContainer
    } else if seq_contains(id, "thewonderofyou.syslog"@) {
        SignerApp::Protokolle
    } else if seq_contains(id, "thewonderofyou.antrag2"@) {
        SignerApp::Antrag
    } else if seq_contains(id, "thewonderofyou.Feather"@) {
        SignerApp::Feather
    } else if seq_contains(id, "com.SideStore.SideStore"@) {
        SignerApp::SideStore
    } else if seq_contains(id, "com.rileytestut.AltStore"@) {
        SignerApp::AltStore
    } else if seq_contains(id, "com.stik.sj"@) {
        SignerApp::StikDebug
    } else if seq_contains(id, "com.kdt.SparseBox"@) {
        SignerApp::SparseBox
    } else if seq_contains(id, "com.yangjiii.EnsWilde"@) {
        SignerApp::EnsWilde
    } else if seq_contains(id, "com.EduAlexxis.MusicManager"@) {
        SignerApp::ByeTunes
    } else {
        SignerApp::Default
    }
}

/// Which app a normalized display name denotes.
pub open spec fn app_for_normalized_name(name: Seq<char>) -> SignerApp {
    if seq_contains(name, "livecontainer"@) {
        SignerApp::LiveContainer
    } else if seq_contains(name, "sidestore"@) {
        SignerApp::SideStore
    } else if seq_contains(name, "altstore"@) {
        SignerApp::AltStore
    } else if seq_contains(name, "feather"@) {
        SignerApp::Feather
    } else if seq_contains(name, "antrag"@) {
        SignerApp::Antrag
    } else if seq_contains(name, "protokolle"@) {
        SignerApp::Protokolle
    } else if seq_contains(name, "stikdebug"@) {
        SignerApp::StikDebug
    } else if seq_contains(name, "sparsebox"@) {
        SignerApp::SparseBox
    } else if seq_contains(name, "enswilde"@) {
        SignerApp::EnsWilde
    } else if seq_contains(name, "byetunes"@) {
        SignerApp::ByeTunes
    } else {
        SignerApp::Default
    }
}

/// The classification used when both an identifier and a name may be given:
/// the identifier decides unless it yields no known app, then the normalized
/// display name decides.
pub open spec fn app_for_identifier_or_name(identifier: Option<&str>, name: Option<&str>)
    -> SignerApp {
    let by_id = match identifier {
        Some(id) => app_for_identifier(id@),
        None => SignerApp::Default,
    };
    if by_id != SignerApp::Default {
        by_id
    } else {
        match name {
            Some(nm) => app_for_normalized_name(normalized_name(nm@)),
            None => SignerApp::Default,
        }
    }
}

impl SignerApp {
    /// Classifies a bundle identifier against the known app identifiers.
    pub fn from_bundle_identifier(identifier: Option<&str>) -> (r: SignerApp)
        ensures
            identifier matches Some(id) ==> r == app_for_identifier(id@),
            identifier is None ==> r == SignerApp::Default,
    {
        let id = match identifier {
            Some(id) => id,
            None => {
                return SignerApp::Default;
            },
        };
        if str_contains(id, "com.kdt.livecontainer") {
            SignerApp::LiveContainer
        } else if str_contains(id, "thewonderofyou.syslog") {
            SignerApp::Protokolle
        } else if str_contains(id, "thewonderofyou.antrag2") {
            SignerApp::Antrag
        } else if str_contains(id, "thewonderofyou.Feather") {
            SignerApp::Feather
        } else if str_contains(id, "com.SideStore.SideStore") {
            SignerApp::SideStore
        } else if str_contains(id, "com.rileytestut.AltStore") {
            SignerApp::AltStore
        } else if str_contains(id, "com.stik.sj") {
            SignerApp::StikDebug
        } else if str_contains(id, "com.kdt.SparseBox") {
            SignerApp::SparseBox
        } else if str_contains(id, "com.yangjiii.EnsWilde") {
            SignerApp::EnsWilde
        } else if str_contains(id, "com.EduAlexxis.MusicManager") {
            SignerApp::ByeTunes
        } else {
            SignerApp::Default
        }
    }

    /// Classifies first by identifier, then by normalized display name.
    pub fn from_bundle_identifier_or_name(identifier: Option<&str>, name: Option<&str>) -> (r:
        SignerApp)
        ensures
            r == app_for_identifier_or_name(identifier, name),
    {
        let app = Self::from_bundle_identifier(identifier);
        if app != SignerApp::Default {
            return app;
        }
        let name = match name {
            Some(name) => name,
            None => {
                return SignerApp::Default;
            },
        };
        let normalized = normalize_name(name);
        if chars_contain(&normalized, "livecontainer") {
            SignerApp::LiveContainer
        } else if chars_contain(&normalized, "sidestore") {
            SignerApp::SideStore
        } else if chars_contain(&normalized, "altstore") {
            SignerApp::AltStore
        } else if chars_contain(&normalized, "feather") {
            SignerApp::Feather
        } else if chars_contain(&normalized, "antrag") {
            SignerApp::Antrag
        } else if chars_contain(&normalized, "protokolle") {
            SignerApp::Protokolle
        } else if chars_contain(&normalized, "stikdebug") {
            SignerApp::StikDebug
        } else if chars_contain(&normalized, "sparsebox") {
            SignerApp::SparseBox
        } else if chars_contain(&normalized, "enswilde") {
            SignerApp::EnsWilde
        } else if chars_contain(&normalized, "byetunes") {
            SignerApp::ByeTunes
        } else {
            SignerApp::Default
        }
    }

    /// Whether this app type consumes a device pairing file.
    pub fn supports_pairing_file(&self) -> (b: bool)
        ensures
            b == !(self is Default || self is LiveContainer || self is AltStore),
    {
        !(matches!(self, SignerApp::Default | SignerApp::LiveContainer | SignerApp::AltStore))
    }

    /// A laxer pairing-file test that still admits LiveContainer.
    pub fn supports_pairing_file_alt(&self) -> (b: bool)
        ensures
            b == !(self is Default || self is AltStore),
    {
        !(matches!(self, SignerApp::Default | SignerApp::AltStore))
    }

    /// Where the app expects the pairing file inside its container.
    pub fn pairing_file_path(&self) -> (r: Option<&'static str>)
        ensures
            (self is Antrag || self is Feather || self is Protokolle || self is StikDebug
                || self is SparseBox || self is EnsWilde) ==> (r matches Some(p) && p@
                == "/Documents/pairingFile.plist"@),
            (self is SideStore) ==> (r matches Some(p) && p@
                == "/Documents/ALTPairingFile.mobiledevicepairing"@),
            (self is LiveContainer || self is LiveContainerAndSideStore) ==> (r matches Some(p)
                && p@ == "/Documents/SideStore/Documents/ALTPairingFile.mobiledevicepairing"@),
            (self is ByeTunes) ==> (r matches Some(p) && p@
                == "/Documents/pairing file/pairingFile.plist"@),
            (self is Default || self is AltStore) ==> r is None,
    {
        match self {
            SignerApp::Antrag
            | SignerApp::Feather
            | SignerApp::Protokolle
            | SignerApp::StikDebug
            | SignerApp::SparseBox
            | SignerApp::EnsWilde => Some("/Documents/pairingFile.plist"),
            SignerApp::SideStore => Some("/Documents/ALTPairingFile.mobiledevicepairing"),
            SignerApp::LiveContainerAndSideStore | SignerApp::LiveContainer => Some(
                "/Documents/SideStore/Documents/ALTPairingFile.mobiledevicepairing",
            ),
            SignerApp::ByeTunes => Some("/Documents/pairing file/pairingFile.plist"),
            _ => None,
        }
    }

    /// The app's display label.
    pub fn label(&self) -> (s: &'static str)
        ensures
            (self is LiveContainer || self is LiveContainerAndSideStore) ==> s@
                == "LiveContainer"@,
    {
        match self {
            SignerApp::Default => "Default",
            SignerApp::Antrag => "Antrag",
            SignerApp::Feather => "Feather",
            SignerApp::Protokolle => "Protokolle",
            SignerApp::AltStore => "AltStore",
            SignerApp::SideStore => "SideStore",
            SignerApp::LiveContainer | SignerApp::LiveContainerAndSideStore => "LiveContainer",
            SignerApp::StikDebug => "StikDebug",
            SignerApp::SparseBox => "SparseBox",
            SignerApp::EnsWilde => "EnsWilde",
            SignerApp::ByeTunes => "ByeTunes",
        }
    }
}

/// An app classification together with the identifier it came from.
#[derive(Debug, Clone)]
pub struct SignerAppReal {
    pub app: SignerApp,
    pub bundle_id: Option<String>,
}

impl SignerAppReal {
    /// Classifies by bundle identifier, remembering the identifier.
    pub fn from_bundle_identifier(identifier: Option<&str>) -> (r: SignerAppReal)
        ensures
            identifier matches Some(id) ==> r.app == app_for_identifier(id@) && (r.bundle_id
                matches Some(b) && b@ == id@),
            identifier is None ==> r.app == SignerApp::Default && r.bundle_id is None,
    {
        let app = SignerApp::from_bundle_identifier(identifier);
        let bundle_id = match identifier {
            Some(s) => Some(String::from_str(s)),
            None => None,
        };
        SignerAppReal { app, bundle_id }
    }

    /// Classifies by identifier, falling back to the display name.
    pub fn from_bundle_identifier_and_name(identifier: Option<&str>, name: Option<&str>) -> (r:
        SignerAppReal)
        ensures
            identifier matches Some(id) ==> (r.bundle_id matches Some(b) && b@ == id@),
            identifier is None ==> r.bundle_id is None,
    {
        let app = SignerApp::from_bundle_identifier_or_name(identifier, name);
        let bundle_id = match identifier {
            Some(s) => Some(String::from_str(s)),
            None => None,
        };
        SignerAppReal { app, bundle_id }
    }
}

/// Feature support toggles applied during bundle modification.
#[derive(Debug, Clone)]
pub struct SignerFeatures {
    pub support_minimum_os_version: bool,
    pub support_file_sharing: bool,
    pub support_ipad_fullscreen: bool,
    pub support_game_mode: bool,
    pub support_pro_motion: bool,
    pub support_liquid_glass: bool,
    pub support_ellekit: bool,
    pub remove_url_schemes: bool,
}

impl Default for SignerFeatures {
    /// All feature toggles start off.
    fn default() -> (r: Self)
        ensures
            !r.support_minimum_os_version,
            !r.support_file_sharing,
            !r.support_ipad_fullscreen,
            !r.support_game_mode,
            !r.support_pro_motion,
            !r.support_liquid_glass,
            !r.support_ellekit,
            !r.remove_url_schemes,
    {
        SignerFeatures {
            support_minimum_os_version: false,
            support_file_sharing: false,
            support_ipad_fullscreen: false,
            support_game_mode: false,
            support_pro_motion: false,
            support_liquid_glass: false,
            support_ellekit: false,
            remove_url_schemes: false,
        }
    }
}

/// Embedding options.
#[derive(Debug, Clone)]
pub struct SignerEmbedding {
    /// Use one provisioning profile for the whole bundle tree.
    pub single_profile: bool,
}

impl Default for SignerEmbedding {
    fn default() -> (r: Self)
        ensures
            !r.single_profile,
    {
        SignerEmbedding { single_profile: false }
    }
}

/// Installation mode.
#[derive(Debug, Clone, Copy, PartialEq, Eq, Structural)]
pub enum SignerInstallMode {
    Install,
    Export,
}

impl Default for SignerInstallMode {
    fn default() -> (r: Self)
        ensures
            r is Install,
    {
        SignerInstallMode::Install
    }
}

impl SignerInstallMode {
    /// The mode's display label.
    pub fn label(&self) -> (s: &'static str)
        ensures
            (self is Install) ==> s@ == "Install"@,
            (self is Export) ==> s@ == "Export"@,
    {
        match self {
            SignerInstallMode::Install => "Install",
            SignerInstallMode::Export => "Export",
        }
    }
}

/// Signing mode: certificate-backed, ad-hoc, or leave the bundle untouched.
#[derive(Debug, Clone, Copy, PartialEq, Eq, Structural)]
pub enum SignerMode {
    Pem,
    Adhoc,
    NoSign,
}

impl Default for SignerMode {
    fn default() -> (r: Self)
        ensures
            r is Pem,
    {
        SignerMode::Pem
    }
}

impl SignerMode {
    /// The mode's display label.
    pub fn label(&self) -> (s: &'static str)
        ensures
            (self is Pem) ==> s@ == "Apple ID"@,
            (self is Adhoc) ==> s@ == "Adhoc"@,
            (self is NoSign) ==> s@ == "No Modify"@,
    {
        match self {
            SignerMode::Pem => "Apple ID",
            SignerMode::Adhoc => "Adhoc",
            SignerMode::NoSign => "No Modify",
        }
    }
}

/// Settings for one signing operation.
#[derive(Debug, Clone)]
pub struct SignerOptions {
    /// Custom app name override.
    pub custom_name: Option<String>,
    /// Custom bundle identifier override.
    pub custom_identifier: Option<String>,
    /// Custom version override.
    pub custom_version: Option<String>,
    /// Path of a custom icon image.
    pub custom_icon: Option<String>,
    /// Custom entitlements plist to embed (only used when single_profile is set).
    pub custom_entitlements: Option<String>,
    /// Feature support options.
    pub features: SignerFeatures,
    /// Embedding options.
    pub embedding: SignerEmbedding,
    /// Signing mode.
    pub mode: SignerMode,
    /// Installation mode.
    pub install_mode: SignerInstallMode,
    /// Paths of tweaks to apply before signing.
    pub tweaks: Option<Vec<String>>,
    /// App type.
    pub app: SignerApp,
    /// Apply autorefresh.
    pub refresh: bool,
}

/// Holds when options carry no overrides and default toggles.
pub open spec fn options_default_but_app(o: SignerOptions, app: SignerApp) -> bool {
    &&& o.custom_name is None
    &&& o.custom_identifier is None
    &&& o.custom_version is None
    &&& o.custom_icon is None
    &&& o.custom_entitlements is None
    &&& !o.features.support_minimum_os_version
    &&& !o.features.support_file_sharing
    &&& !o.features.support_ipad_fullscreen
    &&& !o.features.support_game_mode
    &&& !o.features.support_pro_motion
    &&& !o.features.support_liquid_glass
    &&& !o.features.support_ellekit
    &&& !o.features.remove_url_schemes
    &&& o.mode is Pem
    &&& o.install_mode is Install
    &&& o.tweaks is None
    &&& o.app == app
    &&& !o.refresh
}

impl Default for SignerOptions {
    fn default() -> (r: Self)
        ensures
            options_default_but_app(r, SignerApp::Default),
            !r.embedding.single_profile,
    {
        SignerOptions {
            custom_name: None,
            custom_identifier: None,
            custom_version: None,
            custom_icon: None,
            custom_entitlements: None,
            features: SignerFeatures::default(),
            embedding: SignerEmbedding::default(),
            mode: SignerMode::default(),
            install_mode: SignerInstallMode::default(),
            tweaks: None,
            app: SignerApp::Default,
            refresh: false,
        }
    }
}

impl SignerOptions {
    /// Default options for one app type; LiveContainer variants force a
    /// single shared provisioning profile.
    pub fn new_for_app(app: SignerApp) -> (r: Self)
        ensures
            options_default_but_app(r, app),
            r.embedding.single_profile == (app is LiveContainer
                || app is LiveContainerAndSideStore),
    {
        let mut settings = Self::default();
        settings.app = app;
        match app {
            SignerApp::LiveContainer | SignerApp::LiveContainerAndSideStore => {
                settings.embedding.single_profile = true;
            },
            _ => {},
        }
        settings
    }
}

/// Characters Apple's APIs refuse in app names.
pub open spec fn is_invalid_name_char(c: char) -> bool {
    ||| c == '\\'
    ||| c == '/'
    ||| c == ':'
    ||| c == '*'
    ||| c == '?'
    ||| c == '"'
    ||| c == '<'
    ||| c == '>'
    ||| c == '|'
    ||| c == '.'
}

/// A kept character: ASCII, printable, and not refused.
pub open spec fn name_char_kept(c: char) -> bool {
    c as u32 <= 127 && c as u32 >= 32 && c as u32 != 127 && !is_invalid_name_char(c)
}

/// The name with every refused character removed.
pub open spec fn stripped_name(s: Seq<char>) -> Seq<char>
    decreases s.len(),
{
    if s.len() == 0 {
        Seq::empty()
    } else {
        let prior = stripped_name(s.drop_last());
        if name_char_kept(s.last()) {
            prior.push(s.last())
        } else {
            prior
        }
    }
}

/// Removes the characters Apple's APIs refuse in app names: anything
/// non-ASCII, control characters, and a fixed set of punctuation.
pub fn strip_invalid_name_chars(name: &str) -> (r: String)
    ensures
        r@ == stripped_name(name@),
{
    let n = name.unicode_len();
    let mut r = String::new();
    let mut i: usize = 0;
    proof {
        assert(name@.take(0) =~= Seq::<char>::empty());
    }
    while i < n
        invariant
            i <= n,
            n == name@.len(),
            r@ == stripped_name(name@.take(i as int)),
        decreases n - i,
    {
        let c = name.get_char(i);
        let code = c as u32;
        let invalid = c == '\\' || c == '/' || c == ':' || c == '*' || c == '?' || c == '"' || c
            == '<' || c == '>' || c == '|' || c == '.';
        proof {
            assert(name@.take(i + 1).drop_last() =~= name@.take(i as int));
            assert(name@.take(i + 1).last() == name@[i as int]);
        }
        if code <= 127 && code >= 32 && code != 127 && !invalid {
            let piece = name.substring_char(i, i + 1);
            assert(piece@ =~= seq![name@[i as int]]);
            r.append(piece);
        }
        i += 1;
    }
    proof {
        assert(name@.take(n as int) =~= name@);
    }
    r
}

} // verus!
