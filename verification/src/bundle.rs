//! Application bundles: classification, the nested-bundle tree, and the
//! signing-safe collection order — every embedded bundle before its
//! container, as nested code must be signed before the code that holds it.

use vstd::prelude::*;
use vstd::string::*;

use crate::entitlements::{
    Dict, GValue, PlistValue, gdict_get, gdict_set, gdict_wf, value_view, clone_value,
    entries_view,
};

verus! {

/// What a bundle directory holds.
#[derive(Debug, Clone, Copy, PartialEq, Eq, Structural)]
pub enum BundleType {
    App,
    AppExtension,
    Framework,
    Other,
    Unknown,
}

/// Whether `s` ends with `suffix`.
pub open spec fn ends_with(s: Seq<char>, suffix: Seq<char>) -> bool {
    s.len() >= suffix.len() && s.skip(s.len() - suffix.len()) == suffix
}

/// Classification by directory extension.
pub open spec fn classify_path(path: Seq<char>) -> BundleType {
    if ends_with(path, ".app"@) {
        BundleType::App
    } else if ends_with(path, ".appex"@) {
        BundleType::AppExtension
    } else if ends_with(path, ".framework"@) {
        BundleType::Framework
    } else {
        BundleType::Unknown
    }
}

/// Checks one suffix.
fn str_ends_with(s: &str, suffix: &str) -> (b: bool)
    ensures
        b == ends_with(s@, suffix@),
{
    let n = s.unicode_len();
    let m = suffix.unicode_len();
    if m > n {
        return false;
    }
    let mut j: usize = 0;
    while j < m
        invariant
            j <= m,
            m <= n,
            n == s@.len(),
            m == suffix@.len(),
            forall|t: int| 0 <= t < j ==> s@[n - m + t] == suffix@[t],
        decreases m - j,
    {
        if s.get_char(n - m + j) != suffix.get_char(j) {
            assert(s@.skip(n - m)[j as int] == s@[n - m + j]);
            return false;
        }
        j += 1;
    }
    assert(s@.skip(n - m) =~= suffix@);
    true
}

impl BundleType {
    /// Classifies a directory path by its extension.
    pub fn classify(path: &str) -> (r: BundleType)
        ensures
            r == classify_path(path@),
    {
        if str_ends_with(path, ".app") {
            BundleType::App
        } else if str_ends_with(path, ".appex") {
            BundleType::AppExtension
        } else if str_ends_with(path, ".framework") {
            BundleType::Framework
        } else {
            BundleType::Unknown
        }
    }

    /// Only apps and app extensions carry entitlements; frameworks and
    /// other components are signed without them.
    pub fn should_have_entitlements(&self) -> (b: bool)
        ensures
            b == (self is App || self is AppExtension),
    {
        matches!(self, BundleType::App | BundleType::AppExtension)
    }
}

/// One bundle: its directory, its Info.plist dictionary, its kind, and
/// the bundles nested inside it.
#[derive(Debug)]
pub struct Bundle {
    pub dir: String,
    pub info: Dict,
    pub bundle_type: BundleType,
    pub children: Vec<Bundle>,
}

/// Unique Info.plist keys at every node of the tree.
pub open spec fn tree_wf(b: Bundle) -> bool
    decreases b,
{
    gdict_wf(b.info@) && tree_wf_list(b.children@)
}

pub open spec fn tree_wf_list(bs: Seq<Bundle>) -> bool
    decreases bs,
{
    if bs.len() == 0 {
        true
    } else {
        tree_wf_list(bs.drop_last()) && tree_wf(bs[bs.len() - 1])
    }
}

/// Every node of a well-formed list is well-formed.
pub proof fn lemma_tree_wf_at(bs: Seq<Bundle>, i: int)
    requires
        tree_wf_list(bs),
        0 <= i < bs.len(),
    ensures
        tree_wf(bs[i]),
    decreases bs.len(),
{
    if i < bs.len() - 1 {
        lemma_tree_wf_at(bs.drop_last(), i);
    }
}

/// A pointwise well-formed list is well-formed.
pub proof fn lemma_tree_wf_list_of_pointwise(bs: Seq<Bundle>)
    requires
        forall|i: int| 0 <= i < bs.len() ==> tree_wf(#[trigger] bs[i]),
    ensures
        tree_wf_list(bs),
    decreases bs.len(),
{
    if bs.len() > 0 {
        assert(forall|i: int|
            0 <= i < bs.drop_last().len() ==> #[trigger] bs.drop_last()[i] == bs[i]);
        lemma_tree_wf_list_of_pointwise(bs.drop_last());
    }
}

/// How a rescoped tree relates to the original: entitlement-bearing
/// nodes have every text value equal to `o` rewritten to `nw` in their
/// Info.plist, other nodes keep theirs, and the tree shape, directories
/// and kinds stand.
pub open spec fn rescoped_rel(b1: Bundle, b2: Bundle, o: Seq<char>, nw: Seq<char>) -> bool
    decreases b1,
{
    &&& b2.dir == b1.dir
    &&& b2.bundle_type == b1.bundle_type
    &&& b2.info@ == (if b1.bundle_type is App || b1.bundle_type is AppExtension {
        replace_text_entries(b1.info@, o, nw)
    } else {
        b1.info@
    })
    &&& gdict_wf(b1.info@) ==> gdict_wf(b2.info@)
    &&& rescoped_rel_list(b1.children@, b2.children@, o, nw)
}

pub open spec fn rescoped_rel_list(
    bs1: Seq<Bundle>,
    bs2: Seq<Bundle>,
    o: Seq<char>,
    nw: Seq<char>,
) -> bool
    decreases bs1,
{
    &&& bs2.len() == bs1.len()
    &&& if bs1.len() == 0 {
        true
    } else {
        rescoped_rel_list(bs1.drop_last(), bs2.drop_last(), o, nw) && rescoped_rel(
            bs1[bs1.len() - 1],
            bs2[bs2.len() - 1],
            o,
            nw,
        )
    }
}

/// A pointwise rescoped list is rescoped.
pub proof fn lemma_rescoped_list_of_pointwise(
    bs1: Seq<Bundle>,
    bs2: Seq<Bundle>,
    o: Seq<char>,
    nw: Seq<char>,
)
    requires
        bs1.len() == bs2.len(),
        forall|i: int| 0 <= i < bs1.len() ==> rescoped_rel(#[trigger] bs1[i], bs2[i], o, nw),
    ensures
        rescoped_rel_list(bs1, bs2, o, nw),
    decreases bs1.len(),
{
    if bs1.len() > 0 {
        assert(forall|i: int|
            0 <= i < bs1.drop_last().len() ==> #[trigger] bs1.drop_last()[i] == bs1[i]
                && bs2.drop_last()[i] == bs2[i]);
        lemma_rescoped_list_of_pointwise(bs1.drop_last(), bs2.drop_last(), o, nw);
    }
}

/// The signing order of a tree: every nested bundle before its container.
pub open spec fn postorder(b: Bundle) -> Seq<Bundle>
    decreases b,
{
    postorder_list(b.children@).push(b)
}

pub open spec fn postorder_list(bs: Seq<Bundle>) -> Seq<Bundle>
    decreases bs,
{
    if bs.len() == 0 {
        Seq::empty()
    } else {
        postorder_list(bs.drop_last()) + postorder(bs[bs.len() - 1])
    }
}

/// The container stands last in its own signing order, after everything
/// nested in it.
pub proof fn lemma_postorder_parent_last(b: Bundle)
    ensures
        postorder(b).len() >= 1,
        postorder(b).last() == b,
        forall|i: int|
            0 <= i < postorder(b).len() - 1 ==> #[trigger] postorder(b)[i] == postorder_list(
                b.children@,
            )[i],
{
}

/// Each direct child appears in the order, strictly before the parent.
pub proof fn lemma_child_before_parent(b: Bundle, j: int)
    requires
        0 <= j < b.children@.len(),
    ensures
        exists|i: int|
            0 <= i < postorder(b).len() - 1 && #[trigger] postorder(b)[i] == b.children@[j],
{
    lemma_child_in_list(b.children@, j);
    let i = choose|i: int|
        0 <= i < postorder_list(b.children@).len() && #[trigger] postorder_list(b.children@)[i]
            == b.children@[j];
    assert(postorder(b)[i] == b.children@[j]);
}

/// Each list element's own node appears in the list's order.
proof fn lemma_child_in_list(bs: Seq<Bundle>, j: int)
    requires
        0 <= j < bs.len(),
    ensures
        exists|i: int|
            0 <= i < postorder_list(bs).len() && #[trigger] postorder_list(bs)[i] == bs[j],
    decreases bs.len(),
{
    if j == bs.len() - 1 {
        let prior = postorder_list(bs.drop_last());
        lemma_postorder_parent_last(bs[j]);
        let i = prior.len() + postorder(bs[j]).len() - 1;
        assert(postorder_list(bs)[i] == postorder(bs[j]).last());
    } else {
        lemma_child_in_list(bs.drop_last(), j);
        let i = choose|i: int|
            0 <= i < postorder_list(bs.drop_last()).len() && #[trigger] postorder_list(
                bs.drop_last(),
            )[i] == bs.drop_last()[j];
        assert(postorder_list(bs)[i] == bs.drop_last()[j]);
    }
}

impl Bundle {
    /// Builds a bundle node.
    pub fn new(dir: String, info: Dict, bundle_type: BundleType, children: Vec<Bundle>) -> (r:
        Bundle)
        ensures
            r.dir == dir,
            r.info == info,
            r.bundle_type == bundle_type,
            r.children == children,
    {
        Bundle { dir, info, bundle_type, children }
    }

    /// The tree in signing order: every embedded bundle strictly before
    /// the bundle that contains it, the root last.
    pub fn collect_bundles_sorted(&self) -> (r: Vec<&Bundle>)
        ensures
            r@.map_values(|p: &Bundle| *p) == postorder(*self),
        decreases *self,
    {
        let mut out: Vec<&Bundle> = Vec::new();
        let n = self.children.len();
        let mut i: usize = 0;
        proof {
            assert(out@.map_values(|p: &Bundle| *p) =~= postorder_list(self.children@.take(0)));
        }
        while i < n
            invariant
                i <= n,
                n == self.children@.len(),
                out@.map_values(|p: &Bundle| *p) == postorder_list(self.children@.take(i as int)),
            decreases n - i,
        {
            proof {
                assert(decreases_to!(*self => self.children@[i as int]));
            }
            let mut sub = self.children[i].collect_bundles_sorted();
            let ghost oldout = out@;
            let ghost subv = sub@;
            out.append(&mut sub);
            proof {
                assert(self.children@.take(i + 1).drop_last() =~= self.children@.take(i as int));
                assert(self.children@.take(i + 1)[i as int] == self.children@[i as int]);
                assert(out@.map_values(|p: &Bundle| *p) =~= postorder_list(
                    self.children@.take(i + 1),
                )) by {
                    assert(out@ =~= oldout + subv);
                    assert(forall|t: int|
                        0 <= t < oldout.len() ==> #[trigger] out@[t] == oldout[t]);
                    assert(forall|t: int|
                        0 <= t < subv.len() ==> #[trigger] out@[oldout.len() + t] == subv[t]);
                }
            }
            i += 1;
        }
        out.push(self);
        proof {
            assert(self.children@.take(n as int) =~= self.children@);
            assert(out@.map_values(|p: &Bundle| *p) =~= postorder(*self));
        }
        out
    }

    /// A text entry of the bundle's Info.plist.
    pub fn info_text(&self, key: &str) -> (r: Option<&String>)
        ensures
            r matches Some(s) ==> gdict_get(self.info@, key@) == Some(GValue::Text(s@)),
            r is None ==> (match gdict_get(self.info@, key@) {
                Some(GValue::Text(_)) => false,
                _ => true,
            }),
    {
        match self.info.get(key) {
            Some(v) => match v {
                PlistValue::Text(s) => Some(s),
                _ => None,
            },
            None => None,
        }
    }

    /// The bundle's executable name.
    pub fn get_executable(&self) -> (r: Option<&String>)
        ensures
            r matches Some(s) ==> gdict_get(self.info@, "CFBundleExecutable"@) == Some(
                GValue::Text(s@),
            ),
            r is None ==> (match gdict_get(self.info@, "CFBundleExecutable"@) {
                Some(GValue::Text(_)) => false,
                _ => true,
            }),
    {
        self.info_text("CFBundleExecutable")
    }

    /// The bundle's identifier.
    pub fn get_bundle_identifier(&self) -> (r: Option<&String>)
        ensures
            r matches Some(s) ==> gdict_get(self.info@, "CFBundleIdentifier"@) == Some(
                GValue::Text(s@),
            ),
            r is None ==> (match gdict_get(self.info@, "CFBundleIdentifier"@) {
                Some(GValue::Text(_)) => false,
                _ => true,
            }),
    {
        self.info_text("CFBundleIdentifier")
    }

    /// The bundle's display name.
    pub fn get_bundle_name(&self) -> (r: Option<&String>)
        ensures
            r matches Some(s) ==> gdict_get(self.info@, "CFBundleName"@) == Some(
                GValue::Text(s@),
            ),
            r is None ==> (match gdict_get(self.info@, "CFBundleName"@) {
                Some(GValue::Text(_)) => false,
                _ => true,
            }),
    {
        self.info_text("CFBundleName")
    }

    /// The bundle's version.
    pub fn get_version(&self) -> (r: Option<&String>)
        ensures
            r matches Some(s) ==> gdict_get(self.info@, "CFBundleShortVersionString"@) == Some(
                GValue::Text(s@),
            ),
            r is None ==> (match gdict_get(self.info@, "CFBundleShortVersionString"@) {
                Some(GValue::Text(_)) => false,
                _ => true,
            }),
    {
        self.info_text("CFBundleShortVersionString")
    }

    /// The bundle's build version.
    pub fn get_build_version(&self) -> (r: Option<&String>)
        ensures
            r matches Some(s) ==> gdict_get(self.info@, "CFBundleVersion"@) == Some(
                GValue::Text(s@),
            ),
            r is None ==> (match gdict_get(self.info@, "CFBundleVersion"@) {
                Some(GValue::Text(_)) => false,
                _ => true,
            }),
    {
        self.info_text("CFBundleVersion")
    }

    /// Binds one Info.plist key.
    pub fn set_info_plist_key(&mut self, key: &str, v: PlistValue)
        requires
            gdict_wf(old(self).info@),
        ensures
            final(self).info@ == gdict_set(old(self).info@, key@, value_view(v)),
            gdict_wf(final(self).info@),
            final(self).dir == old(self).dir,
            final(self).bundle_type == old(self).bundle_type,
            final(self).children == old(self).children,
    {
        self.info.set(key, v);
    }

    /// Overrides the display names.
    pub fn set_name(&mut self, name: &str)
        requires
            gdict_wf(old(self).info@),
        ensures
            gdict_wf(final(self).info@),
            final(self).info@ == gdict_set(
                gdict_set(old(self).info@, "CFBundleDisplayName"@, GValue::Text(name@)),
                "CFBundleName"@,
                GValue::Text(name@),
            ),
            final(self).dir == old(self).dir,
            final(self).bundle_type == old(self).bundle_type,
            final(self).children == old(self).children,
    {
        let owned = String::from_str(name);
        self.info.set("CFBundleDisplayName", PlistValue::Text(owned));
        let owned2 = String::from_str(name);
        self.info.set("CFBundleName", PlistValue::Text(owned2));
    }

    /// Overrides the version.
    pub fn set_version(&mut self, version: &str)
        requires
            gdict_wf(old(self).info@),
        ensures
            gdict_wf(final(self).info@),
            final(self).info@ == gdict_set(
                old(self).info@,
                "CFBundleShortVersionString"@,
                GValue::Text(version@),
            ),
            final(self).dir == old(self).dir,
            final(self).bundle_type == old(self).bundle_type,
            final(self).children == old(self).children,
    {
        let owned = String::from_str(version);
        self.info.set("CFBundleShortVersionString", PlistValue::Text(owned));
    }
}

/// Read access to the usual Info.plist fields.
pub trait PlistInfoTrait {
    fn get_name_text(&self) -> Option<&String>;

    fn get_executable_text(&self) -> Option<&String>;

    fn get_identifier_text(&self) -> Option<&String>;
}

impl PlistInfoTrait for Bundle {
    fn get_name_text(&self) -> Option<&String> {
        self.info_text("CFBundleName")
    }

    fn get_executable_text(&self) -> Option<&String> {
        self.info_text("CFBundleExecutable")
    }

    fn get_identifier_text(&self) -> Option<&String> {
        self.info_text("CFBundleIdentifier")
    }
}

/// Every top-level text value equal to `old_id` replaced by `new_id`,
/// keys and everything else untouched.
pub open spec fn replace_text_entries(
    es: Seq<(Seq<char>, GValue)>,
    old_id: Seq<char>,
    new_id: Seq<char>,
) -> Seq<(Seq<char>, GValue)> {
    Seq::new(
        es.len(),
        |i: int|
            (
                es[i].0,
                match es[i].1 {
                    GValue::Text(s) => if s == old_id {
                        GValue::Text(new_id)
                    } else {
                        GValue::Text(s)
                    },
                    v => v,
                },
            ),
    )
}

/// Rewrites every top-level text value equal to `old_id` to `new_id`.
pub fn replace_matching_texts(d: &mut Dict, old_id: &str, new_id: &str)
    requires
        gdict_wf(old(d)@),
    ensures
        gdict_wf(final(d)@),
        final(d)@ == replace_text_entries(old(d)@, old_id@, new_id@),
{
    let ghost es0 = d.entries@;
    let n = d.entries.len();
    let mut i: usize = 0;
    while i < n
        invariant
            i <= n,
            n == d.entries@.len(),
            n == es0.len(),
            forall|t: int|
                0 <= t < i ==> (#[trigger] d.entries@[t]).0@ == es0[t].0@ && value_view(
                    d.entries@[t].1,
                ) == (match value_view(es0[t].1) {
                    GValue::Text(s) => if s == old_id@ {
                        GValue::Text(new_id@)
                    } else {
                        GValue::Text(s)
                    },
                    v => v,
                }),
            forall|t: int| i <= t < n ==> #[trigger] d.entries@[t] == es0[t],
        decreases n - i,
    {
        let is_match = match &d.entries[i].1 {
            PlistValue::Text(s) => crate::entitlements::strings_equal(s.as_str(), old_id),
            _ => false,
        };
        if is_match {
            let key = d.entries[i].0.clone();
            let owned = String::from_str(new_id);
            d.entries.set(i, (key, PlistValue::Text(owned)));
        }
        i += 1;
    }
    proof {
        crate::entitlements::lemma_entries_view(es0);
        crate::entitlements::lemma_entries_view(d.entries@);
        assert(d@ =~= replace_text_entries(entries_view(es0), old_id@, new_id@));
        assert(gdict_wf(d@)) by {
            assert(forall|t: int| 0 <= t < n ==> (#[trigger] d@[t]).0 == entries_view(es0)[t].0);
        }
    }
}

impl Bundle {
    /// Re-scopes the bundle's identifier: every Info.plist text value that
    /// literally equals `old_id` — the identifier itself and any internal
    /// reference to it — now reads `new_id`.
    pub fn set_matching_identifier(&mut self, old_id: &str, new_id: &str)
        requires
            gdict_wf(old(self).info@),
        ensures
            gdict_wf(final(self).info@),
            final(self).info@ == replace_text_entries(old(self).info@, old_id@, new_id@),
            final(self).dir == old(self).dir,
            final(self).bundle_type == old(self).bundle_type,
            final(self).children == old(self).children,
    {
        replace_matching_texts(&mut self.info, old_id, new_id);
    }
}

/// Re-scopes a whole tree: the bundle itself and every nested bundle,
/// where it carries entitlements, has its identifier references rewritten
/// from `old_id` to `new_id`; other nodes are untouched.
pub fn rescope_bundle_tree(b: &Bundle, old_id: &str, new_id: &str) -> (r: Bundle)
    requires
        tree_wf(*b),
    ensures
        rescoped_rel(*b, r, old_id@, new_id@),
        tree_wf(r),
    decreases *b,
{
    let mut info = crate::entitlements::clone_dict(&b.info);
    if b.bundle_type.should_have_entitlements() {
        replace_matching_texts(&mut info, old_id, new_id);
    }
    let mut newkids: Vec<Bundle> = Vec::new();
    let n = b.children.len();
    let mut i: usize = 0;
    while i < n
        invariant
            i <= n,
            n == b.children@.len(),
            tree_wf(*b),
            newkids@.len() == i,
            forall|t: int|
                0 <= t < i ==> rescoped_rel(
                    b.children@[t],
                    #[trigger] newkids@[t],
                    old_id@,
                    new_id@,
                ) && tree_wf(newkids@[t]),
        decreases n - i,
    {
        proof {
            lemma_tree_wf_at(b.children@, i as int);
            assert(decreases_to!(*b => b.children@[i as int]));
        }
        let rc = rescope_bundle_tree(&b.children[i], old_id, new_id);
        newkids.push(rc);
        i += 1;
    }
    proof {
        lemma_rescoped_list_of_pointwise(b.children@, newkids@, old_id@, new_id@);
        assert(forall|t: int| 0 <= t < newkids@.len() ==> tree_wf(#[trigger] newkids@[t]));
        lemma_tree_wf_list_of_pointwise(newkids@);
    }
    Bundle { dir: b.dir.clone(), info, bundle_type: b.bundle_type, children: newkids }
}

/// Rewriting a text to itself changes nothing.
pub proof fn lemma_replace_texts_identity(es: Seq<(Seq<char>, GValue)>, q: Seq<char>)
    ensures
        replace_text_entries(es, q, q) == es,
{
    assert(replace_text_entries(es, q, q) =~= es) by {
        assert(forall|t: int|
            0 <= t < es.len() ==> #[trigger] replace_text_entries(es, q, q)[t] == es[t]);
    }
}

/// Rescoping an identifier to itself relates every tree to itself.
pub proof fn lemma_rescope_same_identity(b: Bundle, q: Seq<char>)
    ensures
        rescoped_rel(b, b, q, q),
    decreases b,
{
    lemma_replace_texts_identity(b.info@, q);
    lemma_rescope_same_identity_list(b.children@, q);
}

proof fn lemma_rescope_same_identity_list(bs: Seq<Bundle>, q: Seq<char>)
    ensures
        rescoped_rel_list(bs, bs, q, q),
    decreases bs,
{
    if bs.len() > 0 {
        lemma_rescope_same_identity_list(bs.drop_last(), q);
        lemma_rescope_same_identity(bs[bs.len() - 1], q);
    }
}

} // verus!