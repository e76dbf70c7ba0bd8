//! The metadata pairs of a glossary (name, description, languages, ...),
//! kept in insertion order under normalized keys.

use heck::ToLowerCamelCase;
use vstd::prelude::*;

use crate::strs::{
    chars_of, is_unicode_lowercase_of, str_eq, string_of, to_lowercase,
};

verus! {

/// The lower camel case form of `s`, as `heck` computes it.
pub uninterp spec fn lower_camel_case(s: Seq<char>) -> Seq<char>;

/// Calls `heck::ToLowerCamelCase::to_lower_camel_case`; the result is named.
#[verifier::external_body]
fn to_lower_camel_case(s: &str) -> (r: String)
    ensures
        r@ == lower_camel_case(s@),
{
    s.to_lower_camel_case()
}

/// Whether `c` separates the words of a raw info key.
pub open spec fn is_key_separator(c: char) -> bool {
    c == ' ' || c == '-' || c == '_'
}

/// `s` without its separator characters.
pub open spec fn without_separators(s: Seq<char>) -> Seq<char>
    decreases s.len(),
{
    if s.len() == 0 {
        s
    } else if is_key_separator(s.last()) {
        without_separators(s.drop_last())
    } else {
        without_separators(s.drop_last()).push(s.last())
    }
}

/// The canonical key that a lowercase raw key stands for, if it is one of the
/// known aliases.
pub open spec fn resolve_raw_key_spec(key: Seq<char>) -> Option<Seq<char>> {
    let k = without_separators(key);
    if k == "title"@ || k == "bookname"@ || k == "dbname"@ {
        Some("name"@)
    } else if k == "sourcelang"@ || k == "inputlang"@ || k == "origlang"@ {
        Some("sourceLang"@)
    } else if k == "targetlang"@ || k == "outputlang"@ || k == "destlang"@ {
        Some("targetLang"@)
    } else if k == "date"@ {
        Some("creationTime"@)
    } else {
        None
    }
}

/// The normalized (camelCase) form of an info key.
pub open spec fn normalize_key_spec(key: Seq<char>) -> Seq<char> {
    match resolve_raw_key_spec(is_unicode_lowercase_of(key)) {
        Some(resolved) => resolved,
        None => lower_camel_case(key),
    }
}

fn remove_separators(key: &str) -> (r: Vec<char>)
    ensures
        r@ == without_separators(key@),
{
    let cs = chars_of(key);
    let mut out: Vec<char> = Vec::new();
    let n = cs.len();
    for i in 0..n
        invariant
            n == cs@.len(),
            cs@ == key@,
            out@ == without_separators(cs@.subrange(0, i as int)),
    {
        let c = cs[i];
        assert(cs@.subrange(0, i + 1).drop_last() =~= cs@.subrange(0, i as int));
        if !(c == ' ' || c == '-' || c == '_') {
            out.push(c);
        }
    }
    assert(cs@.subrange(0, n as int) =~= cs@);
    out
}

/// Resolves the known aliases of a (lowercase) key.
fn resolve_raw_key(key: &str) -> (r: Option<&'static str>)
    ensures
        match r {
            Some(s) => resolve_raw_key_spec(key@) == Some(s@),
            None => resolve_raw_key_spec(key@) is None,
        },
{
    let k = string_of(&remove_separators(key));
    let k = k.as_str();
    if str_eq(k, "title") || str_eq(k, "bookname") || str_eq(k, "dbname") {
        Some("name")
    } else if str_eq(k, "sourcelang") || str_eq(k, "inputlang") || str_eq(k, "origlang") {
        Some("sourceLang")
    } else if str_eq(k, "targetlang") || str_eq(k, "outputlang") || str_eq(k, "destlang") {
        Some("targetLang")
    } else if str_eq(k, "date") {
        Some("creationTime")
    } else {
        None
    }
}

/// Normalizes an info key: a known alias becomes its canonical key
/// (`Title` becomes `name`), any other key becomes camelCase.
pub fn normalize_key(key: &str) -> (r: String)
    ensures
        r@ == normalize_key_spec(key@),
{
    let lower = to_lowercase(key);
    match resolve_raw_key(lower.as_str()) {
        Some(resolved) => resolved.to_string(),
        None => to_lower_camel_case(key),
    }
}

/// The metadata of a glossary: key/value pairs in insertion order, with
/// normalized, distinct keys, the first of which is always `name`.
#[derive(Debug)]
pub struct GlossaryInfo {
    inner: Vec<(String, String)>,
}

/// The key/value pairs of an info, as character sequences.
pub open spec fn pairs_view(v: Seq<(String, String)>) -> Seq<(Seq<char>, Seq<char>)> {
    v.map_values(|p: (String, String)| (p.0@, p.1@))
}

/// The index of `key` among the keys of `pairs`, if present.
pub open spec fn key_index(pairs: Seq<(Seq<char>, Seq<char>)>, key: Seq<char>) -> Option<int> {
    if exists|i: int| 0 <= i < pairs.len() && pairs[i].0 == key {
        Some(choose|i: int| 0 <= i < pairs.len() && pairs[i].0 == key)
    } else {
        None
    }
}

/// The value stored under `key`, if any.
/// What [`GlossaryInfo::get`] finds for `key`: the value stored under the key
/// itself, or else the one stored under its normalized form.
pub open spec fn info_get(pairs: Seq<(Seq<char>, Seq<char>)>, key: Seq<char>) -> Option<Seq<char>> {
    match lookup(pairs, key) {
        Some(v) => Some(v),
        None => lookup(pairs, normalize_key_spec(key)),
    }
}

pub open spec fn lookup(pairs: Seq<(Seq<char>, Seq<char>)>, key: Seq<char>) -> Option<Seq<char>> {
    match key_index(pairs, key) {
        Some(i) => Some(pairs[i].1),
        None => None,
    }
}

/// The pairs after storing `value` under `key`: in place if the key is present,
/// at the end otherwise.
pub open spec fn store(pairs: Seq<(Seq<char>, Seq<char>)>, key: Seq<char>, value: Seq<char>) -> Seq<
    (Seq<char>, Seq<char>),
> {
    match key_index(pairs, key) {
        Some(i) => pairs.update(i, (key, value)),
        None => pairs.push((key, value)),
    }
}

/// Distinct keys, `name` first.
pub open spec fn info_wf(pairs: Seq<(Seq<char>, Seq<char>)>) -> bool {
    &&& pairs.len() >= 1
    &&& pairs[0].0 == "name"@
    &&& forall|i: int, j: int|
        0 <= i < pairs.len() && 0 <= j < pairs.len() && i != j ==> pairs[i].0 != pairs[j].0
}

impl View for GlossaryInfo {
    type V = Seq<(Seq<char>, Seq<char>)>;

    closed spec fn view(&self) -> Self::V {
        pairs_view(self.inner@)
    }
}

impl GlossaryInfo {
    /// Well-formedness: distinct keys, `name` first.
    pub open spec fn wf(&self) -> bool {
        info_wf(self@)
    }

    /// An info that holds only `name`, whose value is `name`.
    pub fn new() -> (r: Self)
        ensures
            r.wf(),
            r@ == seq![("name"@, "name"@)],
    {
        let mut inner: Vec<(String, String)> = Vec::new();
        inner.push(("name".to_string(), "name".to_string()));
        let r = Self { inner };
        assert(r@ =~= seq![("name"@, "name"@)]);
        r
    }

    /// The number of pairs.
    pub fn len(&self) -> (r: usize)
        ensures
            r == self@.len(),
    {
        self.inner.len()
    }

    /// The pairs, in order.
    pub fn pairs(&self) -> (r: &[(String, String)])
        ensures
            pairs_view(r@) == self@,
    {
        self.inner.as_slice()
    }

    fn find(&self, key: &str) -> (r: Option<usize>)
        requires
            self.wf(),
        ensures
            match r {
                Some(i) => key_index(self@, key@) == Some(i as int) && i < self@.len(),
                None => key_index(self@, key@) is None,
            },
    {
        let n = self.inner.len();
        for i in 0..n
            invariant
                n == self.inner@.len(),
                self.wf(),
                forall|j: int| 0 <= j < i ==> self@[j].0 != key@,
        {
            if str_eq(self.inner[i].0.as_str(), key) {
                proof {
                    assert(self@[i as int].0 == key@);
                    let k = choose|k: int| 0 <= k < self@.len() && self@[k].0 == key@;
                    assert(k == i as int);
                }
                return Some(i);
            }
        }
        None
    }

    /// Stores `value` under the normalized `key`: replaces the value of a key
    /// already present (and gives the old one back), or adds the pair at the end.
    pub fn insert(&mut self, key: &str, value: String) -> (r: Option<String>)
        requires
            old(self).wf(),
        ensures
            final(self).wf(),
            final(self)@ == store(old(self)@, normalize_key_spec(key@), value@),
            r matches Some(v) ==> lookup(old(self)@, normalize_key_spec(key@)) == Some(v@),
            r is None ==> lookup(old(self)@, normalize_key_spec(key@)) is None,
    {
        let nk = normalize_key(key);
        match self.find(nk.as_str()) {
            Some(i) => {
                let ghost before = self@;
                let old_value = self.inner[i].1.clone();
                let k = self.inner[i].0.clone();
                self.inner.set(i, (k, value));
                assert(self@ =~= before.update(i as int, (nk@, self.inner@[i as int].1@)));
                Some(old_value)
            },
            None => {
                let ghost before = self@;
                self.inner.push((nk, value));
                assert(self@ =~= before.push((self.inner@.last().0@, self.inner@.last().1@)));
                None
            },
        }
    }

    /// Replaces the value of `key` (taken as it is, not normalized) where it is
    /// present; returns whether it was.
    pub fn update(&mut self, key: &str, value: String) -> (r: bool)
        requires
            old(self).wf(),
        ensures
            final(self).wf(),
            r == (key_index(old(self)@, key@) is Some),
            r ==> final(self)@ == store(old(self)@, key@, value@),
            !r ==> final(self)@ == old(self)@,
    {
        match self.find(key) {
            Some(i) => {
                let ghost before = self@;
                let k = self.inner[i].0.clone();
                self.inner.set(i, (k, value));
                assert(self@ =~= before.update(i as int, (key@, self.inner@[i as int].1@)));
                true
            },
            None => false,
        }
    }

    /// The value of `name`, which is always present.
    pub fn name(&self) -> (r: &str)
        requires
            self.wf(),
        ensures
            r@ == self@[0].1,
            lookup(self@, "name"@) == Some(r@),
    {
        proof {
            let k = choose|k: int| 0 <= k < self@.len() && self@[k].0 == "name"@;
            assert(k == 0);
        }
        self.inner[0].1.as_str()
    }

    /// The value stored under `key` itself, or else under its normalized form.
    pub fn get(&self, key: &str) -> (r: Option<&str>)
        requires
            self.wf(),
        ensures
            match r {
                Some(v) => info_get(self@, key@) == Some(v@),
                None => info_get(self@, key@) is None,
            },
    {
        match self.find(key) {
            Some(i) => {
                return Some(self.inner[i].1.as_str());
            },
            None => {},
        }
        let nk = normalize_key(key);
        match self.find(nk.as_str()) {
            Some(i) => Some(self.inner[i].1.as_str()),
            None => None,
        }
    }

    /// An info made of `pairs`, inserted one by one (so normalized, the later
    /// of two equal keys winning, `name` first).
    pub fn from_pairs(pairs: Vec<(String, String)>) -> (r: Self)
        ensures
            r.wf(),
            r@ == store_all(seq![("name"@, "name"@)], pairs_view(pairs@)),
    {
        let mut info = Self::new();
        let n = pairs.len();
        for i in 0..n
            invariant
                n == pairs@.len(),
                info.wf(),
                info@ == store_all(seq![("name"@, "name"@)], pairs_view(pairs@.subrange(0, i as int))),
        {
            let (k, v) = &pairs[i];
            let _ = info.insert(k.as_str(), v.clone());
            assert(pairs_view(pairs@.subrange(0, i + 1)).drop_last() =~= pairs_view(
                pairs@.subrange(0, i as int),
            ));
        }
        assert(pairs@.subrange(0, n as int) =~= pairs@);
        info
    }
}

/// The pairs after inserting each of `raw` (normalizing its key) in order.
pub open spec fn store_all(start: Seq<(Seq<char>, Seq<char>)>, raw: Seq<(Seq<char>, Seq<char>)>) -> Seq<
    (Seq<char>, Seq<char>),
>
    decreases raw.len(),
{
    if raw.len() == 0 {
        start
    } else {
        store(store_all(start, raw.drop_last()), normalize_key_spec(raw.last().0), raw.last().1)
    }
}

impl Default for GlossaryInfo {
    fn default() -> (r: Self)
        ensures
            r.wf(),
            r@ == seq![("name"@, "name"@)],
    {
        Self::new()
    }
}

/// What a read gives back of a write: after `insert(key, value)`, `get(key)`
/// finds `value` (unless `key` itself names another stored pair, which `get`
/// tries first), and the pairs stay well formed.
pub proof fn lemma_get_after_insert(pairs: Seq<(Seq<char>, Seq<char>)>, key: Seq<char>, value: Seq<char>)
    requires
        info_wf(pairs),
        key == normalize_key_spec(key) || lookup(pairs, key) is None,
    ensures
        info_get(store(pairs, normalize_key_spec(key), value), key) == Some(value),
        lookup(store(pairs, normalize_key_spec(key), value), normalize_key_spec(key)) == Some(value),
        info_wf(store(pairs, normalize_key_spec(key), value)),
{
    lemma_store(pairs, normalize_key_spec(key), value);
}

/// Storing a pair keeps the keys distinct and `name` first, and stores the value.
pub proof fn lemma_store(pairs: Seq<(Seq<char>, Seq<char>)>, key: Seq<char>, value: Seq<char>)
    requires
        info_wf(pairs),
    ensures
        info_wf(store(pairs, key, value)),
        lookup(store(pairs, key, value), key) == Some(value),
        forall|k: Seq<char>| k != key ==> lookup(store(pairs, key, value), k) == lookup(pairs, k),
{
    let s = store(pairs, key, value);
    match key_index(pairs, key) {
        Some(i) => {
            assert(s[i].0 == key);
            assert(key_index(s, key) == Some(i)) by {
                let j = choose|j: int| 0 <= j < s.len() && s[j].0 == key;
                if j != i {
                    assert(pairs[j].0 == key);
                }
            }
        },
        None => {
            let i = pairs.len() as int;
            assert(s[i].0 == key);
            assert(key_index(s, key) == Some(i)) by {
                let j = choose|j: int| 0 <= j < s.len() && s[j].0 == key;
                if j != i {
                    assert(pairs[j].0 == key);
                }
            }
        },
    }
    assert forall|k: Seq<char>| k != key implies lookup(s, k) == lookup(pairs, k) by {
        if key_index(pairs, k) is Some {
            let i = key_index(pairs, k)->0;
            assert(s[i].0 == k);
        }
        if key_index(s, k) is Some {
            let i = key_index(s, k)->0;
            assert(pairs[i].0 == k);
        }
    }
}

/// Storing keeps `name` first with distinct keys: so an info holds `name` in
/// front whatever is inserted into it.
pub proof fn lemma_name_stays_first(pairs: Seq<(Seq<char>, Seq<char>)>, key: Seq<char>, value: Seq<char>)
    requires
        info_wf(pairs),
    ensures
        store(pairs, key, value)[0].0 == "name"@,
{
    lemma_store(pairs, key, value);
}


/// Whether the keys of `pairs` are distinct.
pub open spec fn distinct_keys(pairs: Seq<(Seq<char>, Seq<char>)>) -> bool {
    forall|i: int, j: int| 0 <= i < pairs.len() && 0 <= j < pairs.len() && i != j ==> pairs[i].0 != pairs[j].0
}

/// With distinct keys, the pair at `i` is the one found under its key.
pub proof fn lemma_lookup_at(pairs: Seq<(Seq<char>, Seq<char>)>, i: int)
    requires
        distinct_keys(pairs),
        0 <= i < pairs.len(),
    ensures
        key_index(pairs, pairs[i].0) == Some(i),
        lookup(pairs, pairs[i].0) == Some(pairs[i].1),
{
    let k = choose|k: int| 0 <= k < pairs.len() && pairs[k].0 == pairs[i].0;
    assert(k == i);
}

/// A key that no pair has is not found.
pub proof fn lemma_lookup_absent(pairs: Seq<(Seq<char>, Seq<char>)>, key: Seq<char>)
    requires
        forall|i: int| 0 <= i < pairs.len() ==> pairs[i].0 != key,
    ensures
        key_index(pairs, key) is None,
        lookup(pairs, key) is None,
{
}

/// Storing keeps keys distinct.
pub proof fn lemma_store_distinct(pairs: Seq<(Seq<char>, Seq<char>)>, key: Seq<char>, value: Seq<char>)
    requires
        distinct_keys(pairs),
    ensures
        distinct_keys(store(pairs, key, value)),
{
    match key_index(pairs, key) {
        Some(i) => {
            let s = store(pairs, key, value);
            assert forall|a: int, b: int| 0 <= a < s.len() && 0 <= b < s.len() && a != b implies s[a].0 != s[b].0 by {
                if a == i {
                    assert(pairs[i].0 == key);
                } else if b == i {
                    assert(pairs[i].0 == key);
                }
            }
        },
        None => {},
    }
}

} // verus!
