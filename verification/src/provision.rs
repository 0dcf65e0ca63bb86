//! Provisioning profiles: a signed container wrapping an XML property
//! list.  The plist is located by scanning for its literal opening and
//! closing markers; everything outside them is opaque signature data.
//! A profile is only constructed when its plist carries an Entitlements
//! dictionary — absence is a hard parse failure, never a default.

use vstd::prelude::*;
use vstd::string::*;

use crate::Error;
use crate::entitlements::{
    Dict, GValue, PlistValue, gdict_get, gdict_wf, value_view, clone_value, is_team_prefixed,
    text_is_team_prefixed, merge_entitlements, merge_spec, entries_view, lemma_entries_view,
};

verus! {

/// Whether the bytes of `w` appear in `s` at position `i`.
pub open spec fn window_at(s: Seq<u8>, i: int, w: Seq<u8>) -> bool {
    0 <= i && i + w.len() <= s.len() && s.subrange(i, i + w.len() as int) == w
}

/// The plist opening marker.
pub open spec fn plist_open() -> Seq<u8> {
    seq![0x3cu8, 0x70u8, 0x6cu8, 0x69u8, 0x73u8, 0x74u8]
}

/// The plist closing marker.
pub open spec fn plist_close() -> Seq<u8> {
    seq![0x3cu8, 0x2fu8, 0x70u8, 0x6cu8, 0x69u8, 0x73u8, 0x74u8, 0x3eu8]
}

/// The first position at or after `i` where `w` appears, or -1.
pub open spec fn find_first(s: Seq<u8>, w: Seq<u8>, i: int) -> int
    decreases s.len() - i,
{
    if i < 0 || w.len() == 0 || i + w.len() > s.len() {
        -1
    } else if window_at(s, i, w) {
        i
    } else {
        find_first(s, w, i + 1)
    }
}

/// The last position at or before `i` where `w` appears, or -1.
pub open spec fn find_last(s: Seq<u8>, w: Seq<u8>, i: int) -> int
    decreases i + 1,
{
    if i < 0 {
        -1
    } else if window_at(s, i, w) {
        i
    } else {
        find_last(s, w, i - 1)
    }
}

/// The byte range of the embedded plist: from the first opening marker to
/// the end of the last closing marker, provided both exist in order.
pub open spec fn plist_window(s: Seq<u8>) -> Option<(int, int)> {
    let a = find_first(s, plist_open(), 0);
    let z = find_last(s, plist_close(), s.len() - 8);
    if a >= 0 && z >= 0 && a <= z {
        Some((a, z + 8))
    } else {
        None
    }
}

/// Every dictionary in the shape has pairwise-distinct keys.
pub open spec fn gvalue_keys_unique(v: GValue) -> bool
    decreases v,
{
    match v {
        GValue::Array(items) => gvalues_keys_unique(items),
        GValue::Dict(es) => gdict_wf(es) && gentries_keys_unique(es),
        _ => true,
    }
}

pub open spec fn gvalues_keys_unique(items: Seq<GValue>) -> bool
    decreases items,
{
    if items.len() == 0 {
        true
    } else {
        gvalues_keys_unique(items.drop_last()) && gvalue_keys_unique(items[items.len() - 1])
    }
}

pub open spec fn gentries_keys_unique(es: Seq<(Seq<char>, GValue)>) -> bool
    decreases es,
{
    if es.len() == 0 {
        true
    } else {
        gentries_keys_unique(es.drop_last()) && gvalue_keys_unique(es[es.len() - 1].1)
    }
}

/// What the plist parser yields on the given XML bytes: a fixed function
/// of the bytes alone.
pub uninterp spec fn plist_parsed(bytes: Seq<u8>) -> Option<GValue>;

/// What the plist serializer emits for the given shape: a fixed function
/// of the shape alone.
pub uninterp spec fn plist_xml_bytes(v: GValue) -> Seq<u8>;

/// The outside parser's value type, declared so wrappers can pass it.
#[verifier::external_type_specification]
#[verifier::external_body]
pub struct ExPlistValue(plist::Value);

/// Carries a parsed plist value over from the outside representation,
/// variant by variant; integers outside the signed range, dates, reals
/// and UIDs make the conversion fail.
#[verifier::external_body]
fn value_from_plist(v: plist::Value) -> Option<PlistValue> {
    match v {
        plist::Value::Boolean(b) => Some(PlistValue::Boolean(b)),
        plist::Value::Integer(i) => i.as_signed().map(PlistValue::Integer),
        plist::Value::String(s) => Some(PlistValue::Text(s)),
        plist::Value::Data(d) => Some(PlistValue::Bytes(d)),
        plist::Value::Array(a) => a.into_iter().map(value_from_plist).collect::<Option<Vec<_>>>(
        ).map(PlistValue::Array),
        plist::Value::Dictionary(d) => d.into_iter().map(
            |kv: (String, plist::Value)| value_from_plist(kv.1).map(|y| (kv.0, y)),
        ).collect::<Option<Vec<_>>>().map(PlistValue::Dict),
        _ => None,
    }
}

/// Carries a value out to the outside representation, variant by variant.
#[verifier::external_body]
fn value_to_plist(v: &PlistValue) -> plist::Value {
    match v {
        PlistValue::Boolean(b) => plist::Value::Boolean(*b),
        PlistValue::Integer(i) => plist::Value::Integer(plist::Integer::from(*i)),
        PlistValue::Text(s) => plist::Value::String(s.clone()),
        PlistValue::Bytes(d) => plist::Value::Data(d.clone()),
        PlistValue::Array(items) => plist::Value::Array(items.iter().map(value_to_plist).collect()),
        PlistValue::Dict(es) => plist::Value::Dictionary(
            es.iter().map(|kv| (kv.0.clone(), value_to_plist(&kv.1))).collect(),
        ),
    }
}

/// Relies on plist::Value::from_reader_xml: parses an XML property list.
/// The result is a fixed function of the bytes; a parsed dictionary has
/// unique keys, as the crate's dictionary type keeps one entry per key.
#[verifier::external_body]
pub fn parse_plist_xml(bytes: &[u8]) -> (r: Option<PlistValue>)
    ensures
        r matches Some(v) ==> plist_parsed(bytes@) == Some(value_view(v))
            && gvalue_keys_unique(value_view(v)),
        r is None ==> plist_parsed(bytes@) is None,
{
    plist::Value::from_reader_xml(bytes).ok().and_then(value_from_plist)
}

/// Relies on plist::Value::to_writer_xml: serializes a property list as
/// XML.  The output is a fixed function of the value written, and the
/// call succeeds: every variant the model carries serializes, and the
/// in-memory sink cannot fail.
#[verifier::external_body]
pub fn plist_to_xml(v: &PlistValue) -> (r: Option<Vec<u8>>)
    ensures
        r is Some,
        r matches Some(b) ==> b@ == plist_xml_bytes(value_view(*v)),
{
    let mut buf: Vec<u8> = Vec::new();
    match value_to_plist(v).to_writer_xml(&mut buf) {
        Ok(_) => Some(buf),
        Err(_) => None,
    }
}

/// Whether the opening marker sits at `i`.
fn open_marker_at(data: &Vec<u8>, i: usize) -> (b: bool)
    requires
        i + 6 <= data@.len(),
    ensures
        b == window_at(data@, i as int, plist_open()),
{
    let n = data.len();
    let b = data[i] == 0x3c && data[i + 1] == 0x70 && data[i + 2] == 0x6c && data[i + 3] == 0x69
        && data[i + 4] == 0x73 && data[i + 5] == 0x74;
    proof {
        if b {
            assert(data@.subrange(i as int, i + 6) =~= plist_open());
        } else {
            assert(data@.subrange(i as int, i + 6) != plist_open()) by {
                if data@.subrange(i as int, i + 6) == plist_open() {
                    assert(data@[i as int] == plist_open()[0]);
                    assert(data@[i + 1] == plist_open()[1]);
                    assert(data@[i + 2] == plist_open()[2]);
                    assert(data@[i + 3] == plist_open()[3]);
                    assert(data@[i + 4] == plist_open()[4]);
                    assert(data@[i + 5] == plist_open()[5]);
                }
            }
        }
    }
    b
}

/// Whether the closing marker sits at `i`.
fn close_marker_at(data: &Vec<u8>, i: usize) -> (b: bool)
    requires
        i + 8 <= data@.len(),
    ensures
        b == window_at(data@, i as int, plist_close()),
{
    let n = data.len();
    let b = data[i] == 0x3c && data[i + 1] == 0x2f && data[i + 2] == 0x70 && data[i + 3] == 0x6c
        && data[i + 4] == 0x69 && data[i + 5] == 0x73 && data[i + 6] == 0x74 && data[i + 7]
        == 0x3e;
    proof {
        if b {
            assert(data@.subrange(i as int, i + 8) =~= plist_close());
        } else {
            assert(data@.subrange(i as int, i + 8) != plist_close()) by {
                if data@.subrange(i as int, i + 8) == plist_close() {
                    assert(data@[i as int] == plist_close()[0]);
                    assert(data@[i + 1] == plist_close()[1]);
                    assert(data@[i + 2] == plist_close()[2]);
                    assert(data@[i + 3] == plist_close()[3]);
                    assert(data@[i + 4] == plist_close()[4]);
                    assert(data@[i + 5] == plist_close()[5]);
                    assert(data@[i + 6] == plist_close()[6]);
                    assert(data@[i + 7] == plist_close()[7]);
                }
            }
        }
    }
    b
}

/// Scans forward for the first opening marker.
fn find_open_marker(data: &Vec<u8>) -> (r: Option<usize>)
    ensures
        r matches Some(a) ==> find_first(data@, plist_open(), 0) == a as int && window_at(
            data@,
            a as int,
            plist_open(),
        ),
        r is None ==> find_first(data@, plist_open(), 0) == -1,
{
    let n = data.len();
    let mut a: usize = 0;
    while n >= 6 && a <= n - 6
        invariant
            n == data@.len(),
            a <= n,
            find_first(data@, plist_open(), 0) == find_first(data@, plist_open(), a as int),
        decreases n - a,
    {
        if open_marker_at(data, a) {
            return Some(a);
        }
        a += 1;
    }
    assert(find_first(data@, plist_open(), a as int) == -1);
    None
}

/// Scans backward for the last closing marker.
fn find_close_marker(data: &Vec<u8>) -> (r: Option<usize>)
    requires
        data@.len() >= 8,
    ensures
        r matches Some(z) ==> find_last(data@, plist_close(), data@.len() - 8) == z as int
            && window_at(data@, z as int, plist_close()),
        r is None ==> find_last(data@, plist_close(), data@.len() - 8) == -1,
{
    let n = data.len();
    let mut z: usize = n - 8;
    loop
        invariant
            n == data@.len(),
            n >= 8,
            z <= n - 8,
            find_last(data@, plist_close(), (n - 8) as int) == find_last(
                data@,
                plist_close(),
                z as int,
            ),
        decreases z,
    {
        if close_marker_at(data, z) {
            return Some(z);
        }
        if z == 0 {
            assert(find_last(data@, plist_close(), -1) == -1);
            return None;
        }
        z -= 1;
    }
}

/// Locates the plist byte range inside a profile container.
pub fn locate_plist(data: &Vec<u8>) -> (r: Option<(usize, usize)>)
    ensures
        r matches Some(se) ==> plist_window(data@) == Some((se.0 as int, se.1 as int))
            && se.0 <= se.1 <= data@.len(),
        r is None ==> plist_window(data@) is None,
{
    let n = data.len();
    if n < 8 {
        proof {
            assert(find_last(data@, plist_close(), data@.len() - 8) == -1);
        }
        return None;
    }
    let s0 = match find_open_marker(data) {
        Some(a) => a,
        None => {
            return None;
        },
    };
    let z = match find_close_marker(data) {
        Some(z) => z,
        None => {
            return None;
        },
    };
    if s0 <= z {
        Some((s0, z + 8))
    } else {
        None
    }
}

/// The entitlements dictionary a profile container yields: the embedded
/// plist located by its markers, parsed, and its Entitlements key read.
pub open spec fn profile_entitlements(s: Seq<u8>) -> Option<Seq<(Seq<char>, GValue)>> {
    match plist_window(s) {
        None => None,
        Some((a, b)) => match plist_parsed(s.subrange(a, b)) {
            Some(GValue::Dict(es)) => match gdict_get(es, "Entitlements"@) {
                Some(GValue::Dict(ents)) => Some(ents),
                _ => None,
            },
            _ => None,
        },
    }
}

/// A provisioning profile: the raw container bytes and its extracted
/// entitlements dictionary.
pub struct MobileProvision {
    data: Vec<u8>,
    entitlements: Dict,
}

impl MobileProvision {
    /// The profile's entitlements entries, for specification purposes.
    pub closed spec fn entitlements_view(&self) -> Seq<(Seq<char>, GValue)> {
        self.entitlements@
    }

    /// The raw container bytes, for specification purposes.
    pub closed spec fn data_view(&self) -> Seq<u8> {
        self.data@
    }

    /// Borrows the raw container bytes.
    pub fn data(&self) -> (r: &Vec<u8>)
        ensures
            r@ == self.data_view(),
    {
        &self.data
    }

    /// The dictionary invariant of the extracted entitlements.
    pub open spec fn wf(&self) -> bool {
        gdict_wf(self.entitlements_view())
    }

    /// Loads a profile from container bytes.  Succeeds exactly when the
    /// plist markers are found in order, the window parses, and the plist
    /// carries an Entitlements dictionary.
    pub fn load_with_bytes(data: Vec<u8>) -> (r: Result<MobileProvision, Error>)
        ensures
            r matches Ok(p) ==> {
                &&& p.data_view() == data@
                &&& profile_entitlements(data@) == Some(p.entitlements_view())
                &&& p.wf()
            },
            r is Err ==> profile_entitlements(data@) is None,
            r matches Err(e) ==> e is ProvisioningEntitlementsUnknown,
    {
        let (a, b) = match locate_plist(&data) {
            Some(w) => w,
            None => {
                return Err(Error::ProvisioningEntitlementsUnknown);
            },
        };
        let window = crate::macho::copy_range_public(&data, a, b);
        let parsed = match parse_plist_xml(window.as_slice()) {
            Some(v) => v,
            None => {
                return Err(Error::ProvisioningEntitlementsUnknown);
            },
        };
        let entries = match parsed {
            PlistValue::Dict(es) => es,
            _ => {
                return Err(Error::ProvisioningEntitlementsUnknown);
            },
        };
        let top = Dict { entries };
        proof {
            lemma_entries_view(top.entries@);
        }
        let ents_value = match top.get("Entitlements") {
            Some(v) => v,
            None => {
                return Err(Error::ProvisioningEntitlementsUnknown);
            },
        };
        match ents_value {
            PlistValue::Dict(_) => {},
            _ => {
                return Err(Error::ProvisioningEntitlementsUnknown);
            },
        }
        let owned = clone_value(ents_value);
        match owned {
            PlistValue::Dict(es2) => {
                let ents = Dict { entries: es2 };
                proof {
                    lemma_entries_view(ents.entries@);
                    assert(gdict_wf(ents@)) by {
                        assert(gvalue_keys_unique(value_view(parsed)));
                        lemma_keys_unique_top(top@, "Entitlements"@);
                    }
                }
                Ok(MobileProvision { data, entitlements: ents })
            },
            _ => Err(Error::ProvisioningEntitlementsUnknown),
        }
    }

    /// Borrows the extracted entitlements.
    pub fn entitlements(&self) -> (r: &Dict)
        ensures
            r@ == self.entitlements_view(),
    {
        &self.entitlements
    }

    /// Serializes the entitlements dictionary as XML plist bytes.
    pub fn entitlements_as_bytes(&self) -> (r: Result<Vec<u8>, Error>)
        ensures
            r is Ok,
            r matches Ok(b) ==> b@ == plist_xml_bytes(GValue::Dict(self.entitlements_view())),
    {
        let mut es: Vec<(String, PlistValue)> = Vec::new();
        let n = self.entitlements.entries.len();
        let mut i: usize = 0;
        while i < n
            invariant
                i <= n,
                n == self.entitlements.entries@.len(),
                es@.len() == i,
                forall|t: int|
                    0 <= t < i ==> (#[trigger] es@[t]).0@ == self.entitlements.entries@[t].0@
                        && value_view(es@[t].1) == value_view(self.entitlements.entries@[t].1),
            decreases n - i,
        {
            let key = self.entitlements.entries[i].0.clone();
            let v = clone_value(&self.entitlements.entries[i].1);
            es.push((key, v));
            i += 1;
        }
        let whole = PlistValue::Dict(es);
        proof {
            lemma_entries_view(self.entitlements.entries@);
            lemma_entries_view(whole->Dict_0@);
            assert(entries_view(whole->Dict_0@) =~= self.entitlements_view());
        }
        match plist_to_xml(&whole) {
            Some(b) => Ok(b),
            None => Err(Error::ProvisioningEntitlementsUnknown),
        }
    }

    /// The bundle identifier: the application-identifier entitlement with
    /// its ten-character team prefix stripped when one is present.
    pub fn bundle_id(&self) -> (r: Option<String>)
        ensures
            r matches Some(b) ==> (match gdict_get(
                self.entitlements_view(),
                "application-identifier"@,
            ) {
                Some(GValue::Text(s)) => b@ == if is_team_prefixed(s) {
                    s.skip(11)
                } else {
                    s
                },
                _ => false,
            }),
            r is None ==> (match gdict_get(
                self.entitlements_view(),
                "application-identifier"@,
            ) {
                Some(GValue::Text(s)) => false,
                _ => true,
            }),
    {
        let v = match self.entitlements.get("application-identifier") {
            Some(v) => v,
            None => {
                return None;
            },
        };
        match v {
            PlistValue::Text(s) => {
                if text_is_team_prefixed(s.as_str()) {
                    let n = s.as_str().unicode_len();
                    let stripped = s.as_str().substring_char(11, n);
                    let owned = String::from_str(stripped);
                    assert(owned@ =~= s@.skip(11));
                    Some(owned)
                } else {
                    Some(s.clone())
                }
            },
            _ => None,
        }
    }

    /// Folds a binary's entitlements into this profile's, scoped to the
    /// new application identifier; the team prefix is retargeted to the
    /// profile's own team identifier when it carries one.
    pub fn merge_entitlements(&mut self, binary_entitlements: &Dict, new_application_id: &str)
        requires
            old(self).wf(),
        ensures
            final(self).wf(),
            final(self).data_view() == old(self).data_view(),
            final(self).entitlements_view() == merge_spec(
                old(self).entitlements_view(),
                binary_entitlements@,
                match gdict_get(
                    old(self).entitlements_view(),
                    "com.apple.developer.team-identifier"@,
                ) {
                    Some(GValue::Text(t)) => Some(t),
                    _ => None,
                },
                Some(new_application_id@),
            ),
    {
        let team: Option<String> = match self.entitlements.get(
            "com.apple.developer.team-identifier",
        ) {
            Some(v) => match v {
                PlistValue::Text(t) => Some(t.clone()),
                _ => None,
            },
            None => None,
        };
        match team {
            Some(t) => {
                merge_entitlements(
                    &mut self.entitlements,
                    binary_entitlements,
                    Some(t.as_str()),
                    Some(new_application_id),
                );
            },
            None => {
                merge_entitlements(
                    &mut self.entitlements,
                    binary_entitlements,
                    None,
                    Some(new_application_id),
                );
            },
        }
    }
}

/// The value under a key of a key-unique dictionary is itself key-unique.
proof fn lemma_keys_unique_top(es: Seq<(Seq<char>, GValue)>, key: Seq<char>)
    requires
        gentries_keys_unique(es),
        gdict_get(es, key) is Some,
    ensures
        gvalue_keys_unique(gdict_get(es, key)->Some_0),
    decreases es.len(),
{
    if es.len() > 0 {
        if es[0].0 == key {
            assert(es[es.len() - 1].1 == es.last().1);
            lemma_keys_unique_all(es, 0);
        } else {
            assert(gentries_keys_unique(es.drop_first())) by {
                lemma_keys_unique_drop_first(es);
            }
            lemma_keys_unique_top(es.drop_first(), key);
        }
    }
}

/// Every entry of a key-unique entry list is key-unique.
proof fn lemma_keys_unique_all(es: Seq<(Seq<char>, GValue)>, i: int)
    requires
        gentries_keys_unique(es),
        0 <= i < es.len(),
    ensures
        gvalue_keys_unique(es[i].1),
    decreases es.len(),
{
    if i == es.len() - 1 {
    } else {
        lemma_keys_unique_all(es.drop_last(), i);
    }
}

/// Key uniqueness survives dropping the first entry.
proof fn lemma_keys_unique_drop_first(es: Seq<(Seq<char>, GValue)>)
    requires
        gentries_keys_unique(es),
        es.len() > 0,
    ensures
        gentries_keys_unique(es.drop_first()),
    decreases es.len(),
{
    if es.len() > 1 {
        assert(es.drop_first().drop_last() =~= es.drop_last().drop_first());
        lemma_keys_unique_drop_first(es.drop_last());
        assert(es.drop_first()[es.drop_first().len() - 1] == es[es.len() - 1]);
    }
}

} // verus!