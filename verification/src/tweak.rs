//! Tweak handling: classifying a tweak file by its extension and the
//! binary patch injected tweaks need.  The staging, extraction and
//! copying around these decisions is filesystem work that lives with the
//! caller.

use vstd::prelude::*;
use vstd::string::*;
use vstd::utf8::encode_utf8;

use crate::Error;
use crate::bundle::ends_with;
use crate::macho::{cmds_of, parses, replace_effect, replace_fits, MachOBinary};

verus! {

/// What kind of tweak a file holds, by its extension.
#[derive(Debug, Clone, Copy, PartialEq, Eq, Structural)]
pub enum TweakKind {
    Deb,
    Dylib,
    Framework,
    BundleDir,
    Appex,
}

/// Classification of a tweak path, or nothing for unsupported files.
pub open spec fn tweak_kind_of(path: Seq<char>) -> Option<TweakKind> {
    if ends_with(path, ".deb"@) {
        Some(TweakKind::Deb)
    } else if ends_with(path, ".dylib"@) {
        Some(TweakKind::Dylib)
    } else if ends_with(path, ".framework"@) {
        Some(TweakKind::Framework)
    } else if ends_with(path, ".bundle"@) {
        Some(TweakKind::BundleDir)
    } else if ends_with(path, ".appex"@) {
        Some(TweakKind::Appex)
    } else {
        None
    }
}

/// Compares a suffix character by character.
fn str_suffix(s: &str, suffix: &str) -> (b: bool)
    ensures
        b == ends_with(s@, suffix@),
{
    let n = s.unicode_len();
    let m = suffix.unicode_len();
    if m > n {
        return false;
    }
    let mut j: usize = 0;
    while j < m
        invariant
            j <= m,
            m <= n,
            n == s@.len(),
            m == suffix@.len(),
            forall|t: int| 0 <= t < j ==> s@[n - m + t] == suffix@[t],
        decreases m - j,
    {
        if s.get_char(n - m + j) != suffix.get_char(j) {
            assert(s@.skip(n - m)[j as int] == s@[n - m + j]);
            return false;
        }
        j += 1;
    }
    assert(s@.skip(n - m) =~= suffix@);
    true
}

/// One tweak to fold into an app bundle.
#[derive(Debug)]
pub struct Tweak {
    pub path: String,
    pub kind: TweakKind,
}

impl Tweak {
    /// Accepts a tweak file exactly when its extension names a supported
    /// kind.
    pub fn new(path: String) -> (r: Result<Tweak, Error>)
        ensures
            r matches Ok(t) ==> tweak_kind_of(path@) == Some(t.kind) && t.path@ == path@,
            r is Err <==> tweak_kind_of(path@) is None,
            r matches Err(e) ==> e is UnsupportedFileType,
    {
        let kind = if str_suffix(path.as_str(), ".deb") {
            TweakKind::Deb
        } else if str_suffix(path.as_str(), ".dylib") {
            TweakKind::Dylib
        } else if str_suffix(path.as_str(), ".framework") {
            TweakKind::Framework
        } else if str_suffix(path.as_str(), ".bundle") {
            TweakKind::BundleDir
        } else if str_suffix(path.as_str(), ".appex") {
            TweakKind::Appex
        } else {
            return Err(Error::UnsupportedFileType(path));
        };
        Ok(Tweak { path, kind })
    }
}

/// The system Substrate dependency injected tweaks hard-code.
pub open spec fn substrate_system_path() -> Seq<u8> {
    encode_utf8("/Library/Frameworks/CydiaSubstrate.framework/CydiaSubstrate"@)
}

/// The bundled Substrate path the dependency is rewritten to.
pub open spec fn substrate_bundled_path() -> Seq<u8> {
    encode_utf8("@rpath/CydiaSubstrate.framework/CydiaSubstrate"@)
}

impl Tweak {
    /// Rewrites a tweak binary's hard Substrate dependency to the bundled
    /// one, in place.  A binary without the dependency succeeds untouched;
    /// one whose slot cannot hold the new path fails closed.
    pub fn patch_cydiasubstrate(image: &mut MachOBinary) -> (r: Result<(), Error>)
        requires
            parses(old(image)@),
        ensures
            r is Ok <==> replace_fits(
                cmds_of(old(image)@),
                substrate_system_path(),
                substrate_bundled_path(),
            ),
            r is Ok ==> replace_effect(
                old(image)@,
                final(image)@,
                substrate_system_path(),
                substrate_bundled_path(),
            ),
            r matches Err(e) ==> e is Capacity && final(image)@ == old(image)@,
    {
        let old_path = "/Library/Frameworks/CydiaSubstrate.framework/CydiaSubstrate";
        let new_path = "@rpath/CydiaSubstrate.framework/CydiaSubstrate";
        proof {
            lemma_bundled_path_ascii();
        }
        image.replace_dylib_load_path(old_path, new_path)
    }
}

/// The bundled Substrate path is ASCII without a NUL, so its UTF-8 bytes
/// are exactly its characters and none of them is zero.
proof fn lemma_bundled_path_ascii()
    ensures
        !encode_utf8("@rpath/CydiaSubstrate.framework/CydiaSubstrate"@).contains(0u8),
{
    reveal_strlit("@rpath/CydiaSubstrate.framework/CydiaSubstrate");
    let s = "@rpath/CydiaSubstrate.framework/CydiaSubstrate"@;
    assert(vstd::utf8::is_ascii_chars(s));
    vstd::utf8::is_ascii_chars_encode_utf8(s);
    let b = encode_utf8(s);
    assert(forall|i: int| 0 <= i < b.len() ==> #[trigger] b[i] != 0u8);
}

} // verus!
