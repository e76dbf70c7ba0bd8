//! What an entry says about its headword.

use vstd::prelude::*;

use vstd::string::StringExecFns;

use crate::formats::yomitan::renderer::{comma_join, push_comma_joined, term_entry_html, term_meta_html};
use crate::formats::yomitan::{DetailedDefinition, TermBankEntry};
use crate::glossary::conversion::{element_node, html_to_structured_content, node_view, parsed_fragment};
use crate::formats::yomitan::{TagBankEntry, TermMetaBankEntry, YomitanDefinition};

verus! {

/// The definition of an entry: plain text, html, or a Yomitan entry.
#[derive(Debug, PartialEq)]
pub enum Definition {
    Text(String),
    Html(String),
    Yomitan(YomitanDefinition),
}

/// A definition with its text as characters.
pub enum DefinitionView {
    Text(Seq<char>),
    Html(Seq<char>),
    Yomitan(YomitanDefinition),
}

impl View for Definition {
    type V = DefinitionView;

    open spec fn view(&self) -> DefinitionView {
        match self {
            Definition::Text(s) => DefinitionView::Text(s@),
            Definition::Html(s) => DefinitionView::Html(s@),
            Definition::Yomitan(d) => DefinitionView::Yomitan(*d),
        }
    }
}

/// Whether a definition has an html form: all but the frequency and pitch
/// entries of a term meta bank.
pub open spec fn renderable(d: Definition) -> bool {
    match d {
        Definition::Yomitan(YomitanDefinition::TermMetaBankEntry(m)) => m is Ipa,
        _ => true,
    }
}

/// The html of a definition: text and html as they are, a Yomitan entry
/// rendered with its tags resolved in `bank`.
pub open spec fn definition_to_html(d: Definition, bank: Seq<TagBankEntry>) -> Seq<char> {
    match d {
        Definition::Text(s) => s@,
        Definition::Html(s) => s@,
        Definition::Yomitan(YomitanDefinition::TermBankEntry(e)) => term_entry_html(e, bank),
        Definition::Yomitan(YomitanDefinition::TermMetaBankEntry(m)) => term_meta_html(m),
    }
}

/// The tags of an optional tag bank (none for no bank).
pub open spec fn bank_or_empty(tag_bank: Option<&[TagBankEntry]>) -> Seq<TagBankEntry> {
    match tag_bank {
        Some(b) => b@,
        None => Seq::empty(),
    }
}

impl Definition {
    /// The html of this definition, Yomitan tags resolved in `tag_bank`.
    pub fn to_html(&self, tag_bank: Option<&[TagBankEntry]>) -> (r: String)
        requires
            renderable(*self),
        ensures
            r@ == definition_to_html(*self, bank_or_empty(tag_bank)),
    {
        match self {
            Definition::Text(s) => s.clone(),
            Definition::Html(s) => s.clone(),
            Definition::Yomitan(YomitanDefinition::TermBankEntry(e)) => {
                let empty: Vec<TagBankEntry> = Vec::new();
                let bank: &[TagBankEntry] = match tag_bank {
                    Some(b) => b,
                    None => empty.as_slice(),
                };
                e.to_html(bank)
            },
            Definition::Yomitan(YomitanDefinition::TermMetaBankEntry(m)) => m.to_html(),
        }
    }
}

/// The text of one definition of a term bank entry, where it has one
/// without serializing structured content.
pub open spec fn detailed_text(d: DetailedDefinition) -> Option<Seq<char>> {
    match d {
        DetailedDefinition::String(s) => Some(s@),
        DetailedDefinition::Text(t) => Some(t.text@),
        DetailedDefinition::StructuredContent(_) => None,
        DetailedDefinition::Image(_) => Some("some image"@),
        DetailedDefinition::Inflection(term, rules) => Some(term@ + " ("@ + comma_join(rules@) + ")"@),
    }
}

/// The texts of definitions joined by line breaks, where each has one.
pub open spec fn detailed_texts(defs: Seq<DetailedDefinition>) -> Option<Seq<char>>
    decreases defs.len(),
{
    if defs.len() == 0 {
        Some(Seq::empty())
    } else {
        match (detailed_texts(defs.drop_last()), detailed_text(defs.last())) {
            (Some(a), Some(b)) => if defs.len() == 1 {
                Some(b)
            } else {
                Some(a + "\n"@ + b)
            },
            _ => None,
        }
    }
}

/// The text of a definition, where it has one without serializing
/// structured content.
pub open spec fn definition_text(d: Definition) -> Option<Seq<char>> {
    match d {
        Definition::Text(s) => Some(s@),
        Definition::Html(s) => Some(s@),
        Definition::Yomitan(YomitanDefinition::TermBankEntry(e)) => detailed_texts(e.definitions@),
        Definition::Yomitan(YomitanDefinition::TermMetaBankEntry(_)) => Some(
            "unimplemented to_text for TermMetaBankEntry"@,
        ),
    }
}

/// The text of one definition of a term bank entry, `json` standing for
/// structured content.
pub open spec fn detailed_text_with(d: DetailedDefinition, json: Seq<char>) -> Seq<char> {
    match detailed_text(d) {
        Some(t) => t,
        None => json,
    }
}

/// The texts of definitions joined by line breaks, the `i`-th structured
/// content written as `jsons[i]`.
pub open spec fn detailed_texts_with(defs: Seq<DetailedDefinition>, jsons: Seq<Seq<char>>) -> Seq<char>
    decreases defs.len(),
{
    if defs.len() == 0 {
        Seq::empty()
    } else if defs.len() == 1 {
        detailed_text_with(defs[0], jsons[0])
    } else {
        detailed_texts_with(defs.drop_last(), jsons) + "\n"@ + detailed_text_with(defs.last(), jsons[defs.len() - 1])
    }
}

/// The text of a definition, the `i`-th structured content of a term bank
/// entry written as `jsons[i]`.
pub open spec fn definition_text_with(d: Definition, jsons: Seq<Seq<char>>) -> Seq<char> {
    match d {
        Definition::Yomitan(YomitanDefinition::TermBankEntry(e)) => detailed_texts_with(e.definitions@, jsons),
        _ => definition_text(d)->Some_0,
    }
}

proof fn lemma_detailed_texts_none(defs: Seq<DetailedDefinition>, i: int)
    requires
        0 <= i < defs.len(),
        detailed_text(defs[i]) is None,
    ensures
        detailed_texts(defs) is None,
    decreases defs.len(),
{
    if i < defs.len() - 1 {
        lemma_detailed_texts_none(defs.drop_last(), i);
    }
}

/// Whether `r` is the Yomitan form of definition `d` for headword `term`:
/// text becomes a plain term bank entry, html a structured content one, a
/// Yomitan definition stays as it is.
pub open spec fn yomitan_form(d: Definition, term: Seq<char>, r: YomitanDefinition) -> bool {
    match d {
        Definition::Text(s) => r matches YomitanDefinition::TermBankEntry(e) && e.term@ == term
            && e.definitions@ == seq![DetailedDefinition::String(s)] && e.reading@.len() == 0
            && e.definition_tags@.len() == 0 && e.rules@.len() == 0 && e.frequency == 0
            && e.sequence == 0 && e.term_tags@.len() == 0,
        Definition::Html(s) => r matches YomitanDefinition::TermBankEntry(e) && e.term@ == term
            && e.definitions@.len() == 1 && (e.definitions@[0] matches DetailedDefinition::StructuredContent(
            sc,
        ) && node_view(sc.content) == element_node(parsed_fragment(s@))) && e.reading@.len() == 0
            && e.definition_tags@.len() == 0 && e.rules@.len() == 0 && e.frequency == 0
            && e.sequence == 0 && e.term_tags@.len() == 0,
        Definition::Yomitan(y) => r == y,
    }
}

impl Definition {
    /// The Yomitan form of this definition for `term`: text becomes a plain
    /// term bank entry, html a structured content one, a Yomitan definition
    /// stays as it is.
    pub fn to_yomitan(self, term: &str) -> (r: YomitanDefinition)
        ensures
            yomitan_form(self, term@, r),
    {
        match self {
            Definition::Text(s) => YomitanDefinition::TermBankEntry(TermBankEntry::raw(term.to_string(), s)),
            Definition::Html(s) => {
                let d = html_to_structured_content(s.as_str());
                let mut definitions = Vec::new();
                definitions.push(d);
                YomitanDefinition::TermBankEntry(
                    TermBankEntry {
                        term: term.to_string(),
                        reading: String::new(),
                        definition_tags: String::new(),
                        rules: String::new(),
                        frequency: 0,
                        definitions,
                        sequence: 0,
                        term_tags: String::new(),
                    },
                )
            },
            Definition::Yomitan(d) => d,
        }
    }

    /// The text of this definition, as [`Definition::to_text`] gives it, the
    /// `i`-th definition of a term bank entry, where it is structured content,
    /// written as `contents_json[i]` (its json, which the caller serializes).
    pub fn to_text_with(&self, contents_json: &[String]) -> (r: String)
        requires
            self matches Definition::Yomitan(YomitanDefinition::TermBankEntry(e)) ==> contents_json@.len()
                == e.definitions@.len(),
        ensures
            r@ == definition_text_with(*self, contents_json@.map_values(|j: String| j@)),
    {
        match self {
            Definition::Yomitan(YomitanDefinition::TermBankEntry(e)) => {
                let ghost jv = contents_json@.map_values(|j: String| j@);
                let mut out = String::new();
                let n = e.definitions.len();
                for i in 0..n
                    invariant
                        n == e.definitions@.len(),
                        n == contents_json@.len(),
                        jv == contents_json@.map_values(|j: String| j@),
                        out@ == detailed_texts_with(e.definitions@.take(i as int), jv),
                {
                    proof {
                        assert(e.definitions@.take(i + 1).drop_last() =~= e.definitions@.take(i as int));
                        assert(e.definitions@.take(i + 1).last() == e.definitions@[i as int]);
                        if i == 0 {
                            assert(e.definitions@.take(1)[0] == e.definitions@[0]);
                        }
                    }
                    if i > 0 {
                        out.append("\n");
                    }
                    match &e.definitions[i] {
                        DetailedDefinition::String(s) => out.append(s.as_str()),
                        DetailedDefinition::Text(t) => out.append(t.text.as_str()),
                        DetailedDefinition::StructuredContent(_) => out.append(contents_json[i].as_str()),
                        DetailedDefinition::Image(_) => out.append("some image"),
                        DetailedDefinition::Inflection(term, rules) => {
                            out.append(term.as_str());
                            out.append(" (");
                            push_comma_joined(&mut out, rules);
                            out.append(")");
                        },
                    }
                }
                assert(e.definitions@.take(n as int) =~= e.definitions@);
                out
            },
            _ => {
                let t = self.to_text();
                match t {
                    Some(s) => s,
                    None => String::new(),
                }
            },
        }
    }

    /// The text of this definition: text and html as they are, a term bank
    /// entry's definitions one per line. `None` where a definition is
    /// structured content, whose text is its json.
    pub fn to_text(&self) -> (r: Option<String>)
        ensures
            match r {
                Some(s) => definition_text(*self) == Some(s@),
                None => definition_text(*self) is None,
            },
    {
        match self {
            Definition::Text(s) => Some(s.clone()),
            Definition::Html(s) => Some(s.clone()),
            Definition::Yomitan(YomitanDefinition::TermBankEntry(e)) => {
                let mut out = String::new();
                let n = e.definitions.len();
                for i in 0..n
                    invariant
                        n == e.definitions@.len(),
                        *self == Definition::Yomitan(YomitanDefinition::TermBankEntry(*e)),
                        detailed_texts(e.definitions@.take(i as int)) == Some(out@),
                {
                    proof {
                        assert(e.definitions@.take(i + 1).drop_last() =~= e.definitions@.take(i as int));
                        assert(e.definitions@.take(i + 1).last() == e.definitions@[i as int]);
                    }
                    if i > 0 {
                        out.append("\n");
                    }
                    match &e.definitions[i] {
                        DetailedDefinition::String(s) => out.append(s.as_str()),
                        DetailedDefinition::Text(t) => out.append(t.text.as_str()),
                        DetailedDefinition::StructuredContent(_) => {
                            proof {
                                lemma_detailed_texts_none(e.definitions@, i as int);
                            }
                            return None;
                        },
                        DetailedDefinition::Image(_) => out.append("some image"),
                        DetailedDefinition::Inflection(term, rules) => {
                            out.append(term.as_str());
                            out.append(" (");
                            push_comma_joined(&mut out, rules);
                            out.append(")");
                        },
                    }
                    proof {
                        if i == 0 {
                            assert(e.definitions@.take(0) =~= Seq::<DetailedDefinition>::empty());
                        }
                    }
                }
                assert(e.definitions@.take(n as int) =~= e.definitions@);
                Some(out)
            },
            Definition::Yomitan(YomitanDefinition::TermMetaBankEntry(_)) => Some(
                "unimplemented to_text for TermMetaBankEntry".to_string(),
            ),
        }
    }
}

} // verus!
