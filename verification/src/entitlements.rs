//! The entitlements data model and the merge transformation.
//!
//! Entitlements are property-list dictionaries.  The model keeps
//! dictionary entries in insertion order with unique keys.  The merge
//! substitutes wildcards, replaces the keychain-access-group list,
//! filters it to team-scoped entries, and retargets the team prefix —
//! in exactly that order, which is load-bearing.

use vstd::prelude::*;
use vstd::string::*;

verus! {

/// A property-list value.
#[derive(Debug)]
pub enum PlistValue {
    Boolean(bool),
    Integer(i64),
    Text(String),
    Bytes(Vec<u8>),
    Array(Vec<PlistValue>),
    Dict(Vec<(String, PlistValue)>),
}

/// The mathematical shape of a property-list value.
pub enum GValue {
    Bool(bool),
    Int(int),
    Text(Seq<char>),
    Bytes(Seq<u8>),
    Array(Seq<GValue>),
    Dict(Seq<(Seq<char>, GValue)>),
}

/// The mathematical shape of a value tree.
pub open spec fn value_view(v: PlistValue) -> GValue
    decreases v,
{
    match v {
        PlistValue::Boolean(b) => GValue::Bool(b),
        PlistValue::Integer(i) => GValue::Int(i as int),
        PlistValue::Text(s) => GValue::Text(s@),
        PlistValue::Bytes(b) => GValue::Bytes(b@),
        PlistValue::Array(items) => GValue::Array(values_view(items@)),
        PlistValue::Dict(entries) => GValue::Dict(entries_view(entries@)),
    }
}

/// The shapes of a list of values.
pub open spec fn values_view(s: Seq<PlistValue>) -> Seq<GValue>
    decreases s,
{
    if s.len() == 0 {
        Seq::empty()
    } else {
        values_view(s.drop_last()).push(value_view(s[s.len() - 1]))
    }
}

/// The shapes of a list of keyed values.
pub open spec fn entries_view(s: Seq<(String, PlistValue)>) -> Seq<(Seq<char>, GValue)>
    decreases s,
{
    if s.len() == 0 {
        Seq::empty()
    } else {
        entries_view(s.drop_last()).push((s[s.len() - 1].0@, value_view(s[s.len() - 1].1)))
    }
}

/// The shape list matches the value list pointwise.
pub proof fn lemma_values_view(s: Seq<PlistValue>)
    ensures
        values_view(s).len() == s.len(),
        forall|i: int| 0 <= i < s.len() ==> #[trigger] values_view(s)[i] == value_view(s[i]),
    decreases s,
{
    if s.len() > 0 {
        lemma_values_view(s.drop_last());
        assert(forall|i: int|
            0 <= i < s.len() - 1 ==> values_view(s)[i] == #[trigger] values_view(s.drop_last())[i]
                && s.drop_last()[i] == s[i]);
    }
}

/// The entry-shape list matches the entry list pointwise.
pub proof fn lemma_entries_view(s: Seq<(String, PlistValue)>)
    ensures
        entries_view(s).len() == s.len(),
        forall|i: int|
            0 <= i < s.len() ==> #[trigger] entries_view(s)[i] == (
                s[i].0@,
                value_view(s[i].1),
            ),
    decreases s,
{
    if s.len() > 0 {
        lemma_entries_view(s.drop_last());
        assert(forall|i: int|
            0 <= i < s.len() - 1 ==> entries_view(s)[i] == #[trigger] entries_view(
                s.drop_last(),
            )[i] && s.drop_last()[i] == s[i]);
    }
}

impl View for PlistValue {
    type V = GValue;

    open spec fn view(&self) -> GValue {
        value_view(*self)
    }
}

/// A property-list dictionary: entries in order, keys unique.
#[derive(Debug)]
pub struct Dict {
    pub entries: Vec<(String, PlistValue)>,
}

impl View for Dict {
    type V = Seq<(Seq<char>, GValue)>;

    open spec fn view(&self) -> Seq<(Seq<char>, GValue)> {
        entries_view(self.entries@)
    }
}

/// Keys are pairwise distinct.
pub open spec fn gdict_wf(es: Seq<(Seq<char>, GValue)>) -> bool {
    forall|i: int, j: int|
        0 <= i < j < es.len() ==> (#[trigger] es[i]).0 != (#[trigger] es[j]).0
}

/// The first value stored under `key`, if any.
pub open spec fn gdict_get(es: Seq<(Seq<char>, GValue)>, key: Seq<char>) -> Option<GValue>
    decreases es.len(),
{
    if es.len() == 0 {
        None
    } else if es[0].0 == key {
        Some(es[0].1)
    } else {
        gdict_get(es.drop_first(), key)
    }
}

/// The dictionary with `key` bound to `v`: the existing entry replaced in
/// place, or a new entry appended.
pub open spec fn gdict_set(es: Seq<(Seq<char>, GValue)>, key: Seq<char>, v: GValue) -> Seq<
    (Seq<char>, GValue),
> {
    if gdict_get(es, key) is Some {
        Seq::new(
            es.len(),
            |i: int|
                if es[i].0 == key {
                    (key, v)
                } else {
                    es[i]
                },
        )
    } else {
        es.push((key, v))
    }
}

/// Looking a key up succeeds exactly when some entry carries it.
pub proof fn lemma_gdict_get_index(es: Seq<(Seq<char>, GValue)>, key: Seq<char>)
    ensures
        gdict_get(es, key) is Some <==> (exists|i: int| 0 <= i < es.len() && (#[trigger] es[i]).0
            == key),
        gdict_get(es, key) matches Some(v) ==> (exists|i: int|
            0 <= i < es.len() && (#[trigger] es[i]).0 == key && es[i].1 == v),
    decreases es.len(),
{
    if es.len() > 0 && es[0].0 != key {
        lemma_gdict_get_index(es.drop_first(), key);
        if gdict_get(es, key) is Some {
            let j = choose|j: int|
                0 <= j < es.drop_first().len() && (#[trigger] es.drop_first()[j]).0 == key
                    && es.drop_first()[j].1 == gdict_get(es, key)->Some_0;
            assert(es[j + 1].0 == key && es[j + 1].1 == gdict_get(es, key)->Some_0);
        }
        if exists|i: int| 0 <= i < es.len() && (#[trigger] es[i]).0 == key {
            let i = choose|i: int| 0 <= i < es.len() && (#[trigger] es[i]).0 == key;
            assert(es.drop_first()[i - 1].0 == key);
        }
    }
}

/// Compares two strings character by character.
pub fn strings_equal(a: &str, b: &str) -> (r: bool)
    ensures
        r == (a@ == b@),
{
    let n = a.unicode_len();
    let m = b.unicode_len();
    if n != m {
        return false;
    }
    let mut i: usize = 0;
    while i < n
        invariant
            i <= n,
            n == a@.len(),
            n == b@.len(),
            forall|t: int| 0 <= t < i ==> a@[t] == b@[t],
        decreases n - i,
    {
        if a.get_char(i) != b.get_char(i) {
            return false;
        }
        i += 1;
    }
    assert(a@ =~= b@);
    true
}

impl Dict {
    /// An empty dictionary.
    pub fn new() -> (r: Dict)
        ensures
            r@ =~= Seq::<(Seq<char>, GValue)>::empty(),
            gdict_wf(r@),
    {
        Dict { entries: Vec::new() }
    }

    /// The index of the entry carrying `key`, if any.
    #[verifier::spinoff_prover]
    fn index_of(&self, key: &str) -> (r: Option<usize>)
        ensures
            r matches Some(i) ==> 0 <= i < self@.len() && i < self.entries@.len(),
            r matches Some(i) ==> self@[i as int].0 == key@,
            r matches Some(i) ==> gdict_get(self@, key@) is Some,
            r matches Some(i) ==> (forall|t: int| 0 <= t < i ==> (#[trigger] self@[t]).0 != key@),
            r is None ==> gdict_get(self@, key@) is None,
            r is None ==> forall|i: int| 0 <= i < self@.len() ==> (#[trigger] self@[i]).0 != key@,
    {
        proof {
            lemma_entries_view(self.entries@);
        }
        let n = self.entries.len();
        let mut i: usize = 0;
        while i < n
            invariant
                i <= n,
                n == self@.len(),
                n == self.entries@.len(),
                forall|t: int| 0 <= t < i ==> (#[trigger] self@[t]).0 != key@,
            decreases n - i,
        {
            proof {
                lemma_entries_view(self.entries@);
            }
            if strings_equal(self.entries[i].0.as_str(), key) {
                proof {
                    assert(self@[i as int].0 == key@);
                    lemma_gdict_get_index(self@, key@);
                    assert(exists|t: int|
                        0 <= t < self@.len() && (#[trigger] self@[t]).0 == key@) by {
                        assert(self@[i as int].0 == key@);
                    }
                }
                return Some(i);
            }
            i += 1;
        }
        proof {
            lemma_gdict_get_index(self@, key@);
        }
        None
    }

    /// Whether the dictionary holds `key`.
    pub fn contains_key(&self, key: &str) -> (r: bool)
        ensures
            r == (gdict_get(self@, key@) is Some),
    {
        match self.index_of(key) {
            Some(_) => true,
            None => false,
        }
    }

    /// A clone of the value stored under `key`.
    pub fn get(&self, key: &str) -> (r: Option<&PlistValue>)
        ensures
            r matches Some(v) ==> gdict_get(self@, key@) == Some(value_view(*v)),
            r is None ==> gdict_get(self@, key@) is None,
    {
        match self.index_of(key) {
            Some(i) => {
                proof {
                    lemma_entries_view(self.entries@);
                }
                let v = &self.entries[i].1;
                proof {
                    lemma_gdict_index_value(self@, key@, i as int);
                }
                Some(v)
            },
            None => None,
        }
    }

    /// Binds `key` to `v`, replacing an existing entry in place.
    pub fn set(&mut self, key: &str, v: PlistValue)
        requires
            gdict_wf(old(self)@),
        ensures
            final(self)@ == gdict_set(old(self)@, key@, value_view(v)),
            gdict_wf(final(self)@),
    {
        let ghost es = self@;
        proof {
            lemma_entries_view(self.entries@);
        }
        match self.index_of(key) {
            Some(i) => {
                let owned_key = String::from_str(key);
                let ghost oldentries = self.entries@;
                self.entries.set(i, (owned_key, v));
                proof {
                    lemma_entries_view(oldentries);
                    lemma_entries_view(self.entries@);
                    assert(forall|t: int|
                        0 <= t < es.len() && t != i ==> (#[trigger] es[t]) == self@[t]);
                    assert(forall|t: int|
                        0 <= t < es.len() && t != i ==> (#[trigger] es[t]).0 != key@);
                    assert(self@ =~= gdict_set(es, key@, value_view(v)));
                    assert(gdict_wf(self@));
                }
            },
            None => {
                let owned_key = String::from_str(key);
                let ghost oldentries = self.entries@;
                self.entries.push((owned_key, v));
                proof {
                    lemma_entries_view(oldentries);
                    lemma_entries_view(self.entries@);
                    assert(self@ =~= es.push((key@, value_view(v))));
                    assert(gdict_wf(self@)) by {
                        assert(forall|t: int| 0 <= t < es.len() ==> self@[t] == #[trigger] es[t]);
                        assert(self@[es.len() as int].0 == key@);
                    }
                }
            },
        }
    }
}

/// Extracts the value at a found index.
proof fn lemma_gdict_index_value(es: Seq<(Seq<char>, GValue)>, key: Seq<char>, i: int)
    requires
        0 <= i < es.len(),
        es[i].0 == key,
        forall|t: int| 0 <= t < i ==> (#[trigger] es[t]).0 != key,
    ensures
        gdict_get(es, key) == Some(es[i].1),
    decreases i,
{
    if i > 0 {
        lemma_gdict_index_value(es.drop_first(), key, i - 1);
        assert(es.drop_first()[i - 1] == es[i]);
        assert(forall|t: int|
            0 <= t < i - 1 ==> (#[trigger] es.drop_first()[t]).0 == es[t + 1].0);
    }
}

// ------------------------------------------------------------------
// Wildcard substitution.
// ------------------------------------------------------------------

/// Every `*` in the character sequence replaced by `rep`.
pub open spec fn subst_chars(s: Seq<char>, rep: Seq<char>) -> Seq<char>
    decreases s.len(),
{
    if s.len() == 0 {
        Seq::empty()
    } else {
        let head: Seq<char> = if s[0] == '*' {
            rep
        } else {
            seq![s[0]]
        };
        head + subst_chars(s.drop_first(), rep)
    }
}

/// Appending one character extends the substitution at the end.
pub proof fn lemma_subst_push(s: Seq<char>, c: char, rep: Seq<char>)
    ensures
        subst_chars(s.push(c), rep) == subst_chars(s, rep) + (if c == '*' {
            rep
        } else {
            seq![c]
        }),
    decreases s.len(),
{
    let tail: Seq<char> = if c == '*' {
        rep
    } else {
        seq![c]
    };
    if s.len() == 0 {
        assert(s.push(c)[0] == c);
        assert(s.push(c).drop_first() =~= Seq::<char>::empty());
        assert(subst_chars(s, rep) =~= Seq::<char>::empty());
        assert(subst_chars(s.push(c).drop_first(), rep) =~= Seq::<char>::empty());
        assert(subst_chars(s.push(c), rep) =~= subst_chars(s, rep) + tail);
    } else {
        assert(s.push(c).drop_first() =~= s.drop_first().push(c));
        lemma_subst_push(s.drop_first(), c, rep);
        assert(s.push(c)[0] == s[0]);
        assert(subst_chars(s.push(c), rep) =~= subst_chars(s, rep) + tail);
    }
}

/// The substitution leaves no `*` behind when the replacement has none.
pub proof fn lemma_subst_total(s: Seq<char>, rep: Seq<char>)
    requires
        !rep.contains('*'),
    ensures
        !subst_chars(s, rep).contains('*'),
    decreases s.len(),
{
    if s.len() > 0 {
        lemma_subst_total(s.drop_first(), rep);
        let head: Seq<char> = if s[0] == '*' {
            rep
        } else {
            seq![s[0]]
        };
        let rest = subst_chars(s.drop_first(), rep);
        let out = head + rest;
        assert forall|i: int| 0 <= i < out.len() implies out[i] != '*' by {
            if i < head.len() {
                assert(out[i] == head[i]);
                if s[0] == '*' {
                    assert(!rep.contains('*'));
                }
            } else {
                assert(out[i] == rest[i - head.len()]);
                assert(!rest.contains('*'));
            }
        }
        assert(!out.contains('*'));
    }
}

/// Builds the substituted form of one string.
pub fn substitute_text(s: &str, rep: &str) -> (r: String)
    ensures
        r@ == subst_chars(s@, rep@),
{
    let n = s.unicode_len();
    let mut r = String::new();
    let mut i: usize = 0;
    proof {
        assert(s@.take(0) =~= Seq::<char>::empty());
    }
    while i < n
        invariant
            i <= n,
            n == s@.len(),
            r@ == subst_chars(s@.take(i as int), rep@),
        decreases n - i,
    {
        let c = s.get_char(i);
        if c == '*' {
            r.append(rep);
        } else {
            let piece = s.substring_char(i, i + 1);
            assert(piece@ =~= seq![s@[i as int]]);
            r.append(piece);
        }
        proof {
            assert(s@.take(i + 1).drop_last() =~= s@.take(i as int));
            assert(s@.take(i + 1) =~= s@.take(i as int).push(s@[i as int]));
            lemma_subst_push(s@.take(i as int), s@[i as int], rep@);
        }
        i += 1;
    }
    proof {
        assert(s@.take(n as int) =~= s@);
    }
    r
}

// ------------------------------------------------------------------
// Substitution over whole value trees.
// ------------------------------------------------------------------

/// Wildcard substitution over a value shape.
pub open spec fn subst_gvalue(v: GValue, rep: Seq<char>) -> GValue
    decreases v,
{
    match v {
        GValue::Text(s) => GValue::Text(subst_chars(s, rep)),
        GValue::Array(items) => GValue::Array(subst_gvalues(items, rep)),
        GValue::Dict(es) => GValue::Dict(subst_gentries(es, rep)),
        other => other,
    }
}

/// Wildcard substitution over a list of shapes.
pub open spec fn subst_gvalues(items: Seq<GValue>, rep: Seq<char>) -> Seq<GValue>
    decreases items,
{
    if items.len() == 0 {
        Seq::empty()
    } else {
        subst_gvalues(items.drop_last(), rep).push(subst_gvalue(items[items.len() - 1], rep))
    }
}

/// Wildcard substitution over keyed shapes: values only, keys kept.
pub open spec fn subst_gentries(es: Seq<(Seq<char>, GValue)>, rep: Seq<char>) -> Seq<
    (Seq<char>, GValue),
>
    decreases es,
{
    if es.len() == 0 {
        Seq::empty()
    } else {
        subst_gentries(es.drop_last(), rep).push(
            (es[es.len() - 1].0, subst_gvalue(es[es.len() - 1].1, rep)),
        )
    }
}

/// Pointwise reading of list substitution.
pub proof fn lemma_subst_gvalues(items: Seq<GValue>, rep: Seq<char>)
    ensures
        subst_gvalues(items, rep).len() == items.len(),
        forall|i: int|
            0 <= i < items.len() ==> #[trigger] subst_gvalues(items, rep)[i] == subst_gvalue(
                items[i],
                rep,
            ),
    decreases items,
{
    if items.len() > 0 {
        lemma_subst_gvalues(items.drop_last(), rep);
        assert(forall|i: int|
            0 <= i < items.len() - 1 ==> subst_gvalues(items, rep)[i] == #[trigger] subst_gvalues(
                items.drop_last(),
                rep,
            )[i] && items.drop_last()[i] == items[i]);
    }
}

/// Pointwise reading of entry substitution.
pub proof fn lemma_subst_gentries(es: Seq<(Seq<char>, GValue)>, rep: Seq<char>)
    ensures
        subst_gentries(es, rep).len() == es.len(),
        forall|i: int|
            0 <= i < es.len() ==> #[trigger] subst_gentries(es, rep)[i] == (
                es[i].0,
                subst_gvalue(es[i].1, rep),
            ),
    decreases es,
{
    if es.len() > 0 {
        lemma_subst_gentries(es.drop_last(), rep);
        assert(forall|i: int|
            0 <= i < es.len() - 1 ==> subst_gentries(es, rep)[i] == #[trigger] subst_gentries(
                es.drop_last(),
                rep,
            )[i] && es.drop_last()[i] == es[i]);
    }
}

/// No text leaf of the shape holds a `*`.
pub open spec fn gvalue_star_free(v: GValue) -> bool
    decreases v,
{
    match v {
        GValue::Text(s) => !s.contains('*'),
        GValue::Array(items) => gvalues_star_free(items),
        GValue::Dict(es) => gentries_star_free(es),
        _ => true,
    }
}

/// No text leaf in the list holds a `*`.
pub open spec fn gvalues_star_free(items: Seq<GValue>) -> bool
    decreases items,
{
    if items.len() == 0 {
        true
    } else {
        gvalues_star_free(items.drop_last()) && gvalue_star_free(items[items.len() - 1])
    }
}

/// No text leaf under any key holds a `*`.
pub open spec fn gentries_star_free(es: Seq<(Seq<char>, GValue)>) -> bool
    decreases es,
{
    if es.len() == 0 {
        true
    } else {
        gentries_star_free(es.drop_last()) && gvalue_star_free(es[es.len() - 1].1)
    }
}

/// Wildcard substitution is total: with a star-free replacement, no `*`
/// survives anywhere in the tree — not in nested arrays, not in nested
/// dictionaries.
pub proof fn lemma_substitution_total(v: GValue, rep: Seq<char>)
    requires
        !rep.contains('*'),
    ensures
        gvalue_star_free(subst_gvalue(v, rep)),
    decreases v,
{
    match v {
        GValue::Text(s) => {
            lemma_subst_total(s, rep);
        },
        GValue::Array(items) => {
            lemma_substitution_total_list(items, rep);
        },
        GValue::Dict(es) => {
            lemma_substitution_total_entries(es, rep);
        },
        _ => {},
    }
}

pub proof fn lemma_substitution_total_list(items: Seq<GValue>, rep: Seq<char>)
    requires
        !rep.contains('*'),
    ensures
        gvalues_star_free(subst_gvalues(items, rep)),
    decreases items,
{
    if items.len() > 0 {
        lemma_substitution_total_list(items.drop_last(), rep);
        lemma_substitution_total(items[items.len() - 1], rep);
        assert(subst_gvalues(items, rep).drop_last() =~= subst_gvalues(items.drop_last(), rep));
        assert(subst_gvalues(items, rep)[subst_gvalues(items, rep).len() - 1] == subst_gvalue(
            items[items.len() - 1],
            rep,
        ));
    }
}

pub proof fn lemma_substitution_total_entries(es: Seq<(Seq<char>, GValue)>, rep: Seq<char>)
    requires
        !rep.contains('*'),
    ensures
        gentries_star_free(subst_gentries(es, rep)),
    decreases es,
{
    if es.len() > 0 {
        lemma_substitution_total_entries(es.drop_last(), rep);
        lemma_substitution_total(es[es.len() - 1].1, rep);
        assert(subst_gentries(es, rep).drop_last() =~= subst_gentries(es.drop_last(), rep));
        assert(subst_gentries(es, rep)[subst_gentries(es, rep).len() - 1].1 == subst_gvalue(
            es[es.len() - 1].1,
            rep,
        ));
    }
}

/// A deep copy of a value.
pub fn clone_value(v: &PlistValue) -> (r: PlistValue)
    ensures
        value_view(r) == value_view(*v),
    decreases v,
{
    match v {
        PlistValue::Boolean(b) => PlistValue::Boolean(*b),
        PlistValue::Integer(i) => PlistValue::Integer(*i),
        PlistValue::Text(s) => PlistValue::Text(s.clone()),
        PlistValue::Bytes(b) => {
            let mut out: Vec<u8> = Vec::new();
            let n = b.len();
            let mut i: usize = 0;
            while i < n
                invariant
                    i <= n,
                    n == b@.len(),
                    out@ == b@.take(i as int),
                decreases n - i,
            {
                out.push(b[i]);
                assert(out@ =~= b@.take(i + 1));
                i += 1;
            }
            assert(b@.take(n as int) =~= b@);
            PlistValue::Bytes(out)
        },
        PlistValue::Array(items) => {
            let mut out: Vec<PlistValue> = Vec::new();
            let n = items.len();
            let mut i: usize = 0;
            proof {
                lemma_values_view(items@);
            }
            while i < n
                invariant
                    i <= n,
                    n == items@.len(),
                    *v == PlistValue::Array(*items),
                    out@.len() == i,
                    forall|t: int|
                        0 <= t < i ==> value_view(#[trigger] out@[t]) == value_view(items@[t]),
                decreases n - i,
            {
                proof {
                    assert(decreases_to!(*v => v->Array_0@[i as int]));
                    assert(v->Array_0 == *items);
                }
                let c = clone_value(&items[i]);
                out.push(c);
                i += 1;
            }
            proof {
                lemma_values_view(items@);
                lemma_values_view(out@);
                assert(values_view(out@) =~= values_view(items@));
            }
            PlistValue::Array(out)
        },
        PlistValue::Dict(entries) => {
            let mut out: Vec<(String, PlistValue)> = Vec::new();
            let n = entries.len();
            let mut i: usize = 0;
            while i < n
                invariant
                    i <= n,
                    n == entries@.len(),
                    out@.len() == i,
                    *v == PlistValue::Dict(*entries),
                    forall|t: int|
                        0 <= t < i ==> (#[trigger] out@[t]).0@ == entries@[t].0@ && value_view(
                            out@[t].1,
                        ) == value_view(entries@[t].1),
                decreases n - i,
            {
                proof {
                    assert(decreases_to!(*v => v->Dict_0@[i as int].1));
                    assert(v->Dict_0 == *entries);
                }
                let key = entries[i].0.clone();
                let c = clone_value(&entries[i].1);
                out.push((key, c));
                i += 1;
            }
            proof {
                lemma_entries_view(entries@);
                lemma_entries_view(out@);
                assert(entries_view(out@) =~= entries_view(entries@));
            }
            PlistValue::Dict(out)
        },
    }
}

/// Builds the substituted form of a value tree.
pub fn substitute_value(v: &PlistValue, rep: &str) -> (r: PlistValue)
    ensures
        value_view(r) == subst_gvalue(value_view(*v), rep@),
    decreases v,
{
    match v {
        PlistValue::Boolean(b) => PlistValue::Boolean(*b),
        PlistValue::Integer(i) => PlistValue::Integer(*i),
        PlistValue::Text(s) => PlistValue::Text(substitute_text(s.as_str(), rep)),
        PlistValue::Bytes(b) => {
            let c = clone_value(v);
            c
        },
        PlistValue::Array(items) => {
            let mut out: Vec<PlistValue> = Vec::new();
            let n = items.len();
            let mut i: usize = 0;
            proof {
                lemma_values_view(items@);
                lemma_subst_gvalues(values_view(items@), rep@);
            }
            while i < n
                invariant
                    i <= n,
                    n == items@.len(),
                    out@.len() == i,
                    *v == PlistValue::Array(*items),
                    forall|t: int|
                        0 <= t < i ==> value_view(#[trigger] out@[t]) == subst_gvalue(
                            value_view(items@[t]),
                            rep@,
                        ),
                decreases n - i,
            {
                proof {
                    assert(decreases_to!(*v => v->Array_0@[i as int]));
                    assert(v->Array_0 == *items);
                }
                let c = substitute_value(&items[i], rep);
                out.push(c);
                i += 1;
            }
            proof {
                lemma_values_view(items@);
                lemma_values_view(out@);
                lemma_subst_gvalues(values_view(items@), rep@);
                assert(values_view(out@) =~= subst_gvalues(values_view(items@), rep@));
            }
            PlistValue::Array(out)
        },
        PlistValue::Dict(entries) => {
            let mut out: Vec<(String, PlistValue)> = Vec::new();
            let n = entries.len();
            let mut i: usize = 0;
            while i < n
                invariant
                    i <= n,
                    n == entries@.len(),
                    out@.len() == i,
                    *v == PlistValue::Dict(*entries),
                    forall|t: int|
                        0 <= t < i ==> (#[trigger] out@[t]).0@ == entries@[t].0@ && value_view(
                            out@[t].1,
                        ) == subst_gvalue(value_view(entries@[t].1), rep@),
                decreases n - i,
            {
                proof {
                    assert(decreases_to!(*v => v->Dict_0@[i as int].1));
                    assert(v->Dict_0 == *entries);
                }
                let key = entries[i].0.clone();
                let c = substitute_value(&entries[i].1, rep);
                out.push((key, c));
                i += 1;
            }
            proof {
                lemma_entries_view(entries@);
                lemma_entries_view(out@);
                lemma_subst_gentries(entries_view(entries@), rep@);
                assert(entries_view(out@) =~= subst_gentries(entries_view(entries@), rep@));
            }
            PlistValue::Dict(out)
        },
    }
}

// ------------------------------------------------------------------
// Keychain access groups: replace, filter, retarget.
// ------------------------------------------------------------------

/// The keychain-access-groups key.
pub open spec fn kag_key() -> Seq<char> {
    "keychain-access-groups"@
}

/// An uppercase letter or digit, as team identifiers use.
pub open spec fn is_team_char(c: char) -> bool {
    (65 <= c as u32 <= 90) || (48 <= c as u32 <= 57)
}

/// A ten-character team identifier followed by a dot.
pub open spec fn is_team_prefixed(s: Seq<char>) -> bool {
    &&& s.len() >= 11
    &&& (forall|i: int| 0 <= i < 10 ==> is_team_char(#[trigger] s[i]))
    &&& s[10] == '.'
}

/// Checks the team-identifier prefix shape.
pub fn text_is_team_prefixed(s: &str) -> (b: bool)
    ensures
        b == is_team_prefixed(s@),
{
    let n = s.unicode_len();
    if n < 11 {
        return false;
    }
    let mut i: usize = 0;
    while i < 10
        invariant
            i <= 10,
            n == s@.len(),
            n >= 11,
            forall|t: int| 0 <= t < i ==> is_team_char(#[trigger] s@[t]),
        decreases 10 - i,
    {
        let c = s.get_char(i);
        if !((c >= 'A' && c <= 'Z') || (c >= '0' && c <= '9')) {
            return false;
        }
        i += 1;
    }
    s.get_char(10) == '.'
}

/// Keeps only text entries carrying a team-identifier prefix.
pub open spec fn filter_team_groups(gs: Seq<GValue>) -> Seq<GValue> {
    gs.filter(
        |g: GValue|
            match g {
                GValue::Text(t) => is_team_prefixed(t),
                _ => false,
            },
    )
}

/// One group entry with its team prefix rewritten to `team`.
pub open spec fn retarget_one(g: GValue, team: Seq<char>) -> GValue {
    match g {
        GValue::Text(s) => if is_team_prefixed(s) {
            GValue::Text(team + seq!['.'] + s.skip(11))
        } else {
            GValue::Text(s)
        },
        x => x,
    }
}

/// Every group entry retargeted to `team`.
pub open spec fn retarget_groups(gs: Seq<GValue>, team: Seq<char>) -> Seq<GValue> {
    gs.map_values(|g: GValue| retarget_one(g, team))
}

/// The four merge steps, in their load-bearing order.
pub open spec fn merge_step_subst(
    base: Seq<(Seq<char>, GValue)>,
    app: Option<Seq<char>>,
) -> Seq<(Seq<char>, GValue)> {
    match app {
        Some(a) => subst_gentries(base, a),
        None => base,
    }
}

pub open spec fn merge_step_replace(
    cur: Seq<(Seq<char>, GValue)>,
    adds: Seq<(Seq<char>, GValue)>,
) -> Seq<(Seq<char>, GValue)> {
    match gdict_get(adds, kag_key()) {
        Some(GValue::Array(gs)) => gdict_set(cur, kag_key(), GValue::Array(gs)),
        _ => cur,
    }
}

pub open spec fn merge_step_filter(cur: Seq<(Seq<char>, GValue)>) -> Seq<(Seq<char>, GValue)> {
    match gdict_get(cur, kag_key()) {
        Some(GValue::Array(gs)) => gdict_set(
            cur,
            kag_key(),
            GValue::Array(filter_team_groups(gs)),
        ),
        _ => cur,
    }
}

pub open spec fn merge_step_retarget(
    cur: Seq<(Seq<char>, GValue)>,
    team: Option<Seq<char>>,
) -> Seq<(Seq<char>, GValue)> {
    match team {
        Some(t) => match gdict_get(cur, kag_key()) {
            Some(GValue::Array(gs)) => gdict_set(cur, kag_key(), GValue::Array(retarget_groups(gs, t))),
            _ => cur,
        },
        None => cur,
    }
}

/// The whole merge: substitute wildcards, replace the group list from the
/// additions, filter it to team-scoped entries, then retarget the prefix.
pub open spec fn merge_spec(
    base: Seq<(Seq<char>, GValue)>,
    adds: Seq<(Seq<char>, GValue)>,
    team: Option<Seq<char>>,
    app: Option<Seq<char>>,
) -> Seq<(Seq<char>, GValue)> {
    merge_step_retarget(merge_step_filter(merge_step_replace(merge_step_subst(base, app), adds)), team)
}

/// Setting a key makes it readable.
pub proof fn lemma_gdict_set_get(es: Seq<(Seq<char>, GValue)>, key: Seq<char>, v: GValue)
    ensures
        gdict_get(gdict_set(es, key, v), key) == Some(v),
    decreases es.len(),
{
    let r = gdict_set(es, key, v);
    if gdict_get(es, key) is Some {
        if es[0].0 == key {
            assert(r[0] == (key, v));
        } else {
            assert(r[0] == es[0]);
            assert(r.drop_first() =~= gdict_set(es.drop_first(), key, v));
            lemma_gdict_set_get(es.drop_first(), key, v);
        }
    } else {
        if es.len() == 0 {
            assert(r[0] == (key, v));
        } else {
            assert(r[0] == es[0]);
            assert(r.drop_first() =~= es.drop_first().push((key, v)));
            assert(es.drop_first().push((key, v)) =~= gdict_set(es.drop_first(), key, v));
            lemma_gdict_set_get(es.drop_first(), key, v);
        }
    }
}

/// Filters the group list down to team-scoped text entries.
fn filter_groups_exec(gs: &Vec<PlistValue>) -> (r: Vec<PlistValue>)
    ensures
        values_view(r@) == filter_team_groups(values_view(gs@)),
{
    let ghost target = values_view(gs@);
    let ghost pred = |g: GValue|
        match g {
            GValue::Text(t) => is_team_prefixed(t),
            _ => false,
        };
    let n = gs.len();
    let mut out: Vec<PlistValue> = Vec::new();
    let mut i: usize = 0;
    proof {
        lemma_values_view(gs@);
        reveal_with_fuel(Seq::<GValue>::filter, 2);
        assert(target.take(0).filter(pred) =~= Seq::<GValue>::empty());
        assert(values_view(out@) =~= target.take(0).filter(pred));
    }
    while i < n
        invariant
            i <= n,
            n == gs@.len(),
            target == values_view(gs@),
            target.len() == n,
            pred == (|g: GValue|
                match g {
                    GValue::Text(t) => is_team_prefixed(t),
                    _ => false,
                }),
            forall|t: int| 0 <= t < n ==> #[trigger] target[t] == value_view(gs@[t]),
            values_view(out@) == target.take(i as int).filter(pred),
        decreases n - i,
    {
        proof {
            reveal_with_fuel(Seq::<GValue>::filter, 2);
            assert(target.take(i + 1).drop_last() =~= target.take(i as int));
            assert(target.take(i + 1).last() == target[i as int]);
        }
        let keep = match &gs[i] {
            PlistValue::Text(t) => text_is_team_prefixed(t.as_str()),
            _ => false,
        };
        assert(keep == pred(target[i as int]));
        if keep {
            let c = clone_value(&gs[i]);
            let ghost oldout = out@;
            out.push(c);
            proof {
                reveal_with_fuel(Seq::<GValue>::filter, 2);
                assert(out@.drop_last() =~= oldout);
                assert(out@[out@.len() - 1] == c);
                assert(values_view(out@) == values_view(oldout).push(value_view(c)));
                assert(target.take(i + 1).filter(pred) == target.take(i as int).filter(
                    pred,
                ).push(target[i as int]));
            }
        } else {
            proof {
                reveal_with_fuel(Seq::<GValue>::filter, 2);
                assert(target.take(i + 1).filter(pred) == target.take(i as int).filter(pred));
            }
        }
        i += 1;
    }
    proof {
        assert(target.take(n as int) =~= target);
    }
    out
}

/// Rewrites the team prefix of every team-scoped group entry.
fn retarget_groups_exec(gs: &Vec<PlistValue>, team: &str) -> (r: Vec<PlistValue>)
    ensures
        values_view(r@) == retarget_groups(values_view(gs@), team@),
{
    let ghost target = values_view(gs@);
    let n = gs.len();
    let mut out: Vec<PlistValue> = Vec::new();
    let mut i: usize = 0;
    proof {
        lemma_values_view(gs@);
    }
    while i < n
        invariant
            i <= n,
            n == gs@.len(),
            target == values_view(gs@),
            target.len() == n,
            forall|t: int| 0 <= t < n ==> #[trigger] target[t] == value_view(gs@[t]),
            out@.len() == i,
            forall|t: int|
                0 <= t < i ==> value_view(#[trigger] out@[t]) == retarget_one(target[t], team@),
        decreases n - i,
    {
        let g = &gs[i];
        let replaced: PlistValue = match g {
            PlistValue::Text(t) => {
                if text_is_team_prefixed(t.as_str()) {
                    let nlen = t.as_str().unicode_len();
                    let mut nt = String::from_str(team);
                    nt.append(".");
                    let suffix = t.as_str().substring_char(11, nlen);
                    nt.append(suffix);
                    proof {
                        reveal_strlit(".");
                        assert("."@ =~= seq!['.']);
                        assert(suffix@ =~= t@.skip(11));
                        assert(nt@ =~= team@ + seq!['.'] + t@.skip(11));
                    }
                    PlistValue::Text(nt)
                } else {
                    PlistValue::Text(t.clone())
                }
            },
            other => clone_value(other),
        };
        assert(value_view(replaced) == retarget_one(target[i as int], team@));
        out.push(replaced);
        i += 1;
    }
    proof {
        lemma_values_view(out@);
        assert(values_view(out@) =~= retarget_groups(target, team@));
    }
    out
}

/// Merges a binary's entitlements into a profile's: wildcards substituted
/// with the application identifier, the keychain-access-group list taken
/// from the additions, filtered to team-scoped entries, and retargeted to
/// the new team — in that order.
pub fn merge_entitlements(
    base: &mut Dict,
    additions: &Dict,
    new_team_id: Option<&str>,
    new_app_id: Option<&str>,
)
    requires
        gdict_wf(old(base)@),
    ensures
        gdict_wf(final(base)@),
        final(base)@ == merge_spec(
            old(base)@,
            additions@,
            match new_team_id {
                Some(t) => Some(t@),
                None => None,
            },
            match new_app_id {
                Some(a) => Some(a@),
                None => None,
            },
        ),
{
    let ghost base0 = base@;
    let ghost appv: Option<Seq<char>> = match new_app_id {
        Some(a) => Some(a@),
        None => None,
    };
    let ghost teamv: Option<Seq<char>> = match new_team_id {
        Some(t) => Some(t@),
        None => None,
    };
    // Step 1: wildcard substitution across every value.
    if let Some(app) = new_app_id {
        let n = base.entries.len();
        let ghost es0 = base.entries@;
        let mut i: usize = 0;
        while i < n
            invariant
                i <= n,
                n == base.entries@.len(),
                n == es0.len(),
                forall|t: int|
                    0 <= t < i ==> (#[trigger] base.entries@[t]).0@ == es0[t].0@ && value_view(
                        base.entries@[t].1,
                    ) == subst_gvalue(value_view(es0[t].1), app@),
                forall|t: int| i <= t < n ==> #[trigger] base.entries@[t] == es0[t],
            decreases n - i,
        {
            let key = base.entries[i].0.clone();
            let newv = substitute_value(&base.entries[i].1, app);
            base.entries.set(i, (key, newv));
            i += 1;
        }
        proof {
            lemma_entries_view(es0);
            lemma_entries_view(base.entries@);
            lemma_subst_gentries(entries_view(es0), app@);
            assert(base@ =~= subst_gentries(base0, app@));
            assert(gdict_wf(base@)) by {
                assert(forall|t: int|
                    0 <= t < n ==> (#[trigger] base@[t]).0 == base0[t].0);
            }
        }
    }
    let ghost s1 = merge_step_subst(base0, appv);
    assert(base@ == s1);
    assert(gdict_wf(base@));
    // Step 2: the additions' group list replaces the base's.
    let adds_groups = additions.get("keychain-access-groups");
    match adds_groups {
        Some(v) => {
            match v {
                PlistValue::Array(_) => {
                    let c = clone_value(v);
                    base.set("keychain-access-groups", c);
                },
                _ => {},
            }
        },
        None => {},
    }
    let ghost s2 = merge_step_replace(s1, additions@);
    assert(base@ == s2);
    // Step 3: keep only team-scoped entries.
    let cur = match base.get("keychain-access-groups") {
        Some(v) => Some(clone_value(v)),
        None => None,
    };
    match cur {
        Some(PlistValue::Array(gs)) => {
            let filtered = filter_groups_exec(&gs);
            base.set("keychain-access-groups", PlistValue::Array(filtered));
        },
        _ => {},
    }
    let ghost s3 = merge_step_filter(s2);
    assert(base@ == s3);
    // Step 4: rewrite the team prefix of what remains.
    if let Some(team) = new_team_id {
        let cur = match base.get("keychain-access-groups") {
            Some(v) => Some(clone_value(v)),
            None => None,
        };
        match cur {
            Some(PlistValue::Array(gs)) => {
                let retargeted = retarget_groups_exec(&gs, team);
                base.set("keychain-access-groups", PlistValue::Array(retargeted));
            },
            _ => {},
        }
    }
    assert(base@ == merge_step_retarget(s3, teamv));
}

/// The keychain-access-group flow: when the additions carry a group list
/// and a new team is given, the merged dictionary's list is exactly the
/// additions' list filtered to team-scoped text entries, each with its
/// prefix rewritten to the new team and its suffix kept.
pub proof fn lemma_keychain_group_flow(
    base: Seq<(Seq<char>, GValue)>,
    adds: Seq<(Seq<char>, GValue)>,
    team: Seq<char>,
    app: Option<Seq<char>>,
    gs: Seq<GValue>,
)
    requires
        gdict_get(adds, kag_key()) == Some(GValue::Array(gs)),
    ensures
        gdict_get(merge_spec(base, adds, Some(team), app), kag_key()) == Some(
            GValue::Array(retarget_groups(filter_team_groups(gs), team)),
        ),
{
    let s1 = merge_step_subst(base, app);
    let s2 = merge_step_replace(s1, adds);
    lemma_gdict_set_get(s1, kag_key(), GValue::Array(gs));
    assert(gdict_get(s2, kag_key()) == Some(GValue::Array(gs)));
    let s3 = merge_step_filter(s2);
    lemma_gdict_set_get(s2, kag_key(), GValue::Array(filter_team_groups(gs)));
    assert(gdict_get(s3, kag_key()) == Some(GValue::Array(filter_team_groups(gs))));
    lemma_gdict_set_get(s3, kag_key(), GValue::Array(retarget_groups(filter_team_groups(gs), team)));
}

/// A deep copy of a dictionary.
pub fn clone_dict(d: &Dict) -> (r: Dict)
    ensures
        r@ == d@,
{
    let mut es: Vec<(String, PlistValue)> = Vec::new();
    let n = d.entries.len();
    let mut i: usize = 0;
    while i < n
        invariant
            i <= n,
            n == d.entries@.len(),
            es@.len() == i,
            forall|t: int|
                0 <= t < i ==> (#[trigger] es@[t]).0@ == d.entries@[t].0@ && value_view(es@[t].1)
                    == value_view(d.entries@[t].1),
        decreases n - i,
    {
        let key = d.entries[i].0.clone();
        let v = clone_value(&d.entries[i].1);
        es.push((key, v));
        i += 1;
    }
    proof {
        lemma_entries_view(d.entries@);
        lemma_entries_view(es@);
        assert(entries_view(es@) =~= entries_view(d.entries@));
    }
    Dict { entries: es }
}

/// Binding a key keeps the dictionary well-formed.
pub proof fn lemma_gdict_set_wf(es: Seq<(Seq<char>, GValue)>, key: Seq<char>, v: GValue)
    requires
        gdict_wf(es),
    ensures
        gdict_wf(gdict_set(es, key, v)),
{
    let r = gdict_set(es, key, v);
    if gdict_get(es, key) is Some {
        assert(forall|t: int| 0 <= t < es.len() ==> (#[trigger] r[t]).0 == es[t].0);
    } else {
        lemma_gdict_get_index(es, key);
        assert(forall|t: int| 0 <= t < es.len() ==> (#[trigger] r[t]) == es[t]);
        assert(r[es.len() as int].0 == key);
    }
}

/// Re-binding a key to the value it already holds changes nothing.
pub proof fn lemma_gdict_set_same(es: Seq<(Seq<char>, GValue)>, key: Seq<char>, v: GValue)
    requires
        gdict_wf(es),
        gdict_get(es, key) == Some(v),
    ensures
        gdict_set(es, key, v) == es,
{
    lemma_gdict_get_index(es, key);
    let i = choose|i: int| 0 <= i < es.len() && (#[trigger] es[i]).0 == key && es[i].1 == v;
    assert(gdict_set(es, key, v) =~= es) by {
        assert(forall|t: int|
            0 <= t < es.len() && t != i ==> (#[trigger] es[t]).0 != key);
        assert(forall|t: int|
            0 <= t < es.len() ==> #[trigger] gdict_set(es, key, v)[t] == (if es[t].0 == key {
                (key, v)
            } else {
                es[t]
            }));
    }
}

/// Binding one key leaves every other key's binding alone.
pub proof fn lemma_gdict_set_other(
    es: Seq<(Seq<char>, GValue)>,
    key: Seq<char>,
    v: GValue,
    other: Seq<char>,
)
    requires
        key != other,
    ensures
        gdict_get(gdict_set(es, key, v), other) == gdict_get(es, other),
    decreases es.len(),
{
    let r = gdict_set(es, key, v);
    if gdict_get(es, key) is Some {
        assert(es.len() > 0);
        assert(r[0] == (if es[0].0 == key {
            (key, v)
        } else {
            es[0]
        }));
        if es[0].0 == other {
            assert(r[0].0 == other && r[0].1 == es[0].1);
        } else {
            assert(r[0].0 != other);
            if gdict_get(es.drop_first(), key) is Some {
                assert(r.drop_first() =~= gdict_set(es.drop_first(), key, v));
                lemma_gdict_set_other(es.drop_first(), key, v, other);
            } else {
                assert(r.drop_first() =~= es.drop_first()) by {
                    lemma_gdict_get_index(es.drop_first(), key);
                }
            }
        }
    } else {
        lemma_gdict_set_push_other(es, key, v, other);
    }
}

/// Appending a fresh key leaves every other key's binding alone.
proof fn lemma_gdict_set_push_other(
    es: Seq<(Seq<char>, GValue)>,
    key: Seq<char>,
    v: GValue,
    other: Seq<char>,
)
    requires
        key != other,
    ensures
        gdict_get(es.push((key, v)), other) == gdict_get(es, other),
    decreases es.len(),
{
    let r = es.push((key, v));
    if es.len() == 0 {
        assert(r[0].0 == key);
        assert(r.drop_first() =~= Seq::<(Seq<char>, GValue)>::empty());
    } else {
        assert(r[0] == es[0]);
        assert(r.drop_first() =~= es.drop_first().push((key, v)));
        lemma_gdict_set_push_other(es.drop_first(), key, v, other);
    }
}

} // verus!
