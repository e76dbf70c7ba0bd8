//! An entry: a headword, its definition and its alternative headwords.

use vstd::prelude::*;

use crate::glossary::alt::{AltEntry, AltView};
use crate::glossary::definition::{Definition, DefinitionView};
use crate::strs::{find_from, lemma_find_from, lemma_find_unique, push_str, split_spec, string_of};

verus! {

/// The character that joins an entry's headword and alts in flat formats.
pub const TERM_SEPARATOR: char = '|';

/// An entry: a headword and a [`Definition`], with its alternative headwords.
#[derive(Debug, PartialEq)]
pub struct Entry {
    term: String,
    definition: Definition,
    alts: Vec<AltEntry>,
}

/// An entry as characters.
pub struct EntryView {
    pub term: Seq<char>,
    pub definition: DefinitionView,
    pub alts: Seq<AltView>,
}

/// The views of a list of alts.
pub open spec fn alts_view(alts: Seq<AltEntry>) -> Seq<AltView> {
    alts.map_values(|a: AltEntry| a@)
}

impl View for Entry {
    type V = EntryView;

    closed spec fn view(&self) -> EntryView {
        EntryView {
            term: self.term@,
            definition: self.definition@,
            alts: alts_view(self.alts@),
        }
    }
}

/// `pieces` joined by `sep`.
pub open spec fn join_spec(pieces: Seq<Seq<char>>, sep: char) -> Seq<char>
    decreases pieces.len(),
{
    if pieces.len() == 0 {
        Seq::empty()
    } else if pieces.len() == 1 {
        pieces[0]
    } else {
        join_spec(pieces.drop_last(), sep).push(sep) + pieces.last()
    }
}

/// The headword followed by the alts' headwords.
pub open spec fn terms_list(e: EntryView) -> Seq<Seq<char>> {
    seq![e.term] + e.alts.map_values(|a: AltView| a.term)
}

impl Entry {
    /// The spec form of [`Entry::definition`].
    pub closed spec fn spec_definition(&self) -> &Definition {
        &self.definition
    }

    /// The spec form of [`Entry::alts`].
    pub closed spec fn spec_alts(&self) -> Seq<AltEntry> {
        self.alts@
    }

    /// An entry without alts.
    pub fn new(term: String, definition: Definition) -> (r: Self)
        ensures
            r@.term == term@,
            r@.definition == definition@,
            r@.alts.len() == 0,
            r.spec_definition() == definition,
            r.spec_alts().len() == 0,
    {
        Self { term, definition, alts: Vec::new() }
    }

    /// An entry with an html definition and no alts.
    pub fn with_html(term: String, definition: String) -> (r: Self)
        ensures
            r@.term == term@,
            r@.definition == DefinitionView::Html(definition@),
            r@.alts.len() == 0,
            r.spec_definition() == Definition::Html(definition),
            r.spec_alts().len() == 0,
    {
        Self { term, definition: Definition::Html(definition), alts: Vec::new() }
    }

    /// The headword.
    pub fn term(&self) -> (r: &str)
        ensures
            r@ == self@.term,
    {
        self.term.as_str()
    }

    /// The headword, to change.
    pub fn term_mut(&mut self) -> (r: &mut String)
        ensures
            r@ == old(self)@.term,
            final(self)@.term == final(r)@,
            final(self)@.definition == old(self)@.definition,
            final(self)@.alts == old(self)@.alts,
            final(self).spec_definition() == old(self).spec_definition(),
            final(self).spec_alts() == old(self).spec_alts(),
    {
        &mut self.term
    }

    /// The definition.
    #[verifier::when_used_as_spec(spec_definition)]
    pub fn definition(&self) -> (r: &Definition)
        ensures
            r == self.spec_definition(),
            r@ == self@.definition,
    {
        &self.definition
    }

    /// The definition, to change.
    pub fn definition_mut(&mut self) -> (r: &mut Definition)
        ensures
            *r == *old(self).spec_definition(),
            final(self)@.definition == final(r)@,
            final(self).spec_definition() == *final(r),
            final(self)@.term == old(self)@.term,
            final(self)@.alts == old(self)@.alts,
            final(self).spec_alts() == old(self).spec_alts(),
    {
        &mut self.definition
    }

    /// The alts, in order.
    pub fn alts(&self) -> (r: &[AltEntry])
        ensures
            alts_view(r@) == self@.alts,
            r@ == self.spec_alts(),
    {
        self.alts.as_slice()
    }

    /// The alts, to change.
    pub fn alts_mut(&mut self) -> (r: &mut Vec<AltEntry>)
        ensures
            r@ == old(self).spec_alts(),
            final(self)@.alts == alts_view(final(r)@),
            final(self).spec_alts() == final(r)@,
            final(self)@.term == old(self)@.term,
            final(self)@.definition == old(self)@.definition,
            final(self).spec_definition() == old(self).spec_definition(),
    {
        &mut self.alts
    }

    /// The headword and the alts' headwords, in order.
    fn l_terms(&self) -> (r: Vec<String>)
        ensures
            r@.map_values(|s: String| s@) == terms_list(self@),
    {
        let mut out: Vec<String> = Vec::new();
        out.push(self.term.clone());
        let n = self.alts.len();
        for i in 0..n
            invariant
                n == self.alts@.len(),
                out@.map_values(|s: String| s@) == terms_list(self@).subrange(0, i + 1),
        {
            let t = self.alts[i].term().to_string();
            let ghost prev = out@;
            out.push(t);
            assert(terms_list(self@)[i + 1] == self.alts@[i as int]@.term);
            assert(out@.map_values(|s: String| s@) =~= prev.map_values(|s: String| s@).push(t@));
            assert(out@.map_values(|s: String| s@) =~= terms_list(self@).subrange(0, i + 2));
        }
        assert(terms_list(self@).subrange(0, n + 1) =~= terms_list(self@));
        out
    }

    /// The headword and the alts' headwords joined by [`TERM_SEPARATOR`].
    pub fn s_terms(&self) -> (r: String)
        ensures
            r@ == join_spec(terms_list(self@), TERM_SEPARATOR),
    {
        let terms = self.l_terms();
        let ghost pieces = terms@.map_values(|s: String| s@);
        let mut out: Vec<char> = Vec::new();
        let n = terms.len();
        for i in 0..n
            invariant
                n == terms@.len(),
                pieces == terms@.map_values(|s: String| s@),
                out@ == join_spec(pieces.subrange(0, i as int), TERM_SEPARATOR),
        {
            if i > 0 {
                out.push(TERM_SEPARATOR);
            }
            push_str(&mut out, terms[i].as_str());
            assert(pieces.subrange(0, i + 1).drop_last() =~= pieces.subrange(0, i as int));
            if i == 0 {
                assert(out@ =~= join_spec(pieces.subrange(0, 1), TERM_SEPARATOR));
            }
        }
        assert(pieces.subrange(0, n as int) =~= pieces);
        string_of(&out)
    }

    /// The headword's utf-8 bytes.
    pub fn b_term(&self) -> (r: &[u8])
        ensures
            r@ == utf8_of(self@.term),
    {
        self.term.as_str().as_bytes()
    }

    /// The utf-8 bytes of each alt's headword.
    pub fn b_alts(&self) -> (r: Vec<Vec<u8>>)
        ensures
            r@.len() == self@.alts.len(),
            forall|i: int|
                0 <= i < r@.len() ==> #[trigger] r@[i]@ == crate::glossary::entry::utf8_of(
                    self@.alts[i].term,
                ),
    {
        let mut out: Vec<Vec<u8>> = Vec::new();
        let n = self.alts.len();
        for i in 0..n
            invariant
                n == self.alts@.len(),
                out@.len() == i,
                forall|j: int| 0 <= j < i ==> #[trigger] out@[j]@ == utf8_of(self@.alts[j].term),
        {
            let t = self.alts[i].term();
            out.push(bytes_of(t));
        }
        out
    }

    /// The headword, the definition and the alts, taken apart.
    pub fn into_parts(self) -> (r: (String, Definition, Vec<AltEntry>))
        ensures
            r.0@ == self@.term,
            r.1 == *self.spec_definition(),
            r.2@ == self.spec_alts(),
    {
        (self.term, self.definition, self.alts)
    }

    /// The same entry under another headword.
    pub fn with_term(self, term: String) -> (r: Self)
        ensures
            r@.term == term@,
            r@.definition == self@.definition,
            r@.alts == self@.alts,
    {
        Self { term, ..self }
    }

    /// The same entry with another definition.
    pub fn with_definition(self, definition: Definition) -> (r: Self)
        ensures
            r@.term == self@.term,
            r@.definition == definition@,
            r@.alts == self@.alts,
            r.spec_definition() == definition,
    {
        Self { definition, ..self }
    }

    /// The same entry with other alts.
    pub fn with_alts(self, alts: Vec<AltEntry>) -> (r: Self)
        ensures
            r@.term == self@.term,
            r@.definition == self@.definition,
            r@.alts == alts_view(alts@),
            r.spec_alts() == alts@,
            r.spec_definition() == self.spec_definition(),
    {
        Self { alts, ..self }
    }
}

/// The alts of an entry's view are the views of its alts.
pub proof fn lemma_alts_view(e: Entry)
    ensures
        e@.alts == alts_view(e.spec_alts()),
{
}

/// The utf-8 encoding of `s`.
pub open spec fn utf8_of(s: Seq<char>) -> Seq<u8> {
    vstd::utf8::encode_utf8(s)
}

/// A copy of the utf-8 bytes of `s`.
pub fn bytes_of(s: &str) -> (r: Vec<u8>)
    ensures
        r@ == utf8_of(s@),
{
    let b = s.as_bytes();
    let mut out: Vec<u8> = Vec::new();
    let n = b.len();
    for i in 0..n
        invariant
            n == b@.len(),
            out@ == b@.subrange(0, i as int),
    {
        out.push(b[i]);
        assert(b@.subrange(0, i + 1) =~= b@.subrange(0, i as int).push(b@[i as int]));
    }
    assert(b@.subrange(0, n as int) =~= b@);
    out
}


/// A join of two or more pieces: the first piece, the separator, the join of
/// the rest.
pub proof fn lemma_join_front(p: Seq<Seq<char>>, c: char)
    requires
        p.len() >= 2,
    ensures
        join_spec(p, c) == p[0] + seq![c] + join_spec(p.skip(1), c),
    decreases p.len(),
{
    if p.len() == 2 {
        assert(p.drop_last().len() == 1);
        assert(p.skip(1).len() == 1);
        assert(join_spec(p.drop_last(), c) == p[0]);
        assert(join_spec(p.skip(1), c) == p[1]);
        assert(join_spec(p, c) =~= p[0] + seq![c] + join_spec(p.skip(1), c));
    } else {
        lemma_join_front(p.drop_last(), c);
        assert(p.drop_last().skip(1) =~= p.skip(1).drop_last());
        assert(p.skip(1).last() == p.last());
        assert(p.drop_last()[0] == p[0]);
        assert(join_spec(p, c) =~= p[0] + seq![c] + join_spec(p.skip(1), c));
    }
}

/// Splitting a join of pieces that hold no separator gives the pieces back.
pub proof fn lemma_split_join(p: Seq<Seq<char>>, c: char)
    requires
        p.len() >= 1,
        forall|i: int| 0 <= i < p.len() ==> !(#[trigger] p[i]).contains(c),
    ensures
        split_spec(join_spec(p, c), c) == p,
    decreases p.len(),
{
    if p.len() == 1 {
        let s = p[0];
        lemma_find_from(s, 0, c);
        if find_from(s, 0, c) is Some {
            let k = find_from(s, 0, c)->0;
            assert(s.contains(c));
        }
        assert(split_spec(s, c) =~= p);
    } else {
        lemma_join_front(p, c);
        let s = join_spec(p, c);
        let k = p[0].len() as int;
        assert(s[k] == c);
        assert forall|j: int| 0 <= j < k implies s[j] != c by {
            assert(s[j] == p[0][j]);
            if p[0][j] == c {
                assert(p[0].contains(c));
            }
        }
        lemma_find_unique(s, 0, c, k);
        assert(s.subrange(0, k) =~= p[0]);
        assert(s.skip(k + 1) =~= join_spec(p.skip(1), c));
        assert forall|i: int| 0 <= i < p.skip(1).len() implies !(#[trigger] p.skip(1)[i]).contains(c) by {
            assert(p.skip(1)[i] == p[i + 1]);
        }
        lemma_split_join(p.skip(1), c);
        assert(seq![p[0]] + p.skip(1) =~= p);
    }
}

/// A join of pieces holds the separator and what the pieces hold, nothing else.
pub proof fn lemma_join_chars(p: Seq<Seq<char>>, c: char, ch: char)
    requires
        ch != c,
        forall|i: int| 0 <= i < p.len() ==> !(#[trigger] p[i]).contains(ch),
    ensures
        !join_spec(p, c).contains(ch),
    decreases p.len(),
{
    if p.len() == 0 {
    } else if p.len() == 1 {
        assert(!p[0].contains(ch));
    } else {
        lemma_join_chars(p.drop_last(), c, ch);
        let a = join_spec(p.drop_last(), c);
        let r = a.push(c) + p.last();
        assert(!p[p.len() - 1].contains(ch));
        assert(!r.contains(ch)) by {
            if r.contains(ch) {
                let j = choose|j: int| 0 <= j < r.len() && r[j] == ch;
                if j < a.len() {
                    assert(a[j] == ch);
                } else if j > a.len() {
                    assert(p.last()[j - a.len() - 1] == ch);
                }
            }
        }
    }
}

} // verus!
