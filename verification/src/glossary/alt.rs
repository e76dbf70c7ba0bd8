//! An alternative form of an entry's headword.
//!
//! Alts live on the entry itself, positionally, the way stardict keys its
//! synonyms by entry index. An alt can carry a definition: Yomitan holds extra
//! information about the relation (the inflection chain) that a plain alias
//! would lose.

use vstd::prelude::*;

use crate::glossary::definition::{Definition, DefinitionView};

verus! {

/// An alternative headword, possibly with a definition of its own.
#[derive(Debug, PartialEq)]
pub struct AltEntry {
    term: String,
    definition: Option<Definition>,
}

/// An alt as characters.
pub struct AltView {
    pub term: Seq<char>,
    pub definition: Option<DefinitionView>,
}

/// The view of an optional definition.
pub open spec fn opt_def_view(d: Option<Definition>) -> Option<DefinitionView> {
    match d {
        Some(d) => Some(d@),
        None => None,
    }
}

impl View for AltEntry {
    type V = AltView;

    closed spec fn view(&self) -> AltView {
        AltView { term: self.term@, definition: opt_def_view(self.definition) }
    }
}

impl AltEntry {
    /// An alt with a definition.
    pub fn new(term: String, definition: Definition) -> (r: Self)
        ensures
            r@.term == term@,
            r@.definition == Some(definition@),
            r.definition() == Some(&definition),
    {
        Self { term, definition: Some(definition) }
    }

    /// An alt that is only a headword.
    pub fn only_term(term: String) -> (r: Self)
        ensures
            r@.term == term@,
            r@.definition is None,
            r.definition() is None,
    {
        Self { term, definition: None }
    }

    /// The headword.
    pub fn term(&self) -> (r: &str)
        ensures
            r@ == self@.term,
    {
        self.term.as_str()
    }

    /// The headword and the definition, taken apart.
    pub fn into_parts(self) -> (r: (String, Option<Definition>))
        ensures
            r.0@ == self@.term,
            r.1 == match self.spec_definition() {
                Some(d) => Some(*d),
                None => None::<Definition>,
            },
    {
        (self.term, self.definition)
    }

    /// The spec form of [`AltEntry::definition`].
    pub closed spec fn spec_definition(&self) -> Option<&Definition> {
        match &self.definition {
            Some(d) => Some(d),
            None => None,
        }
    }

    /// The definition, if the alt carries one.
    #[verifier::when_used_as_spec(spec_definition)]
    pub fn definition(&self) -> (r: Option<&Definition>)
        ensures
            r == self.spec_definition(),
            match r {
                Some(d) => self@.definition == Some(d@),
                None => self@.definition is None,
            },
    {
        match &self.definition {
            Some(d) => Some(d),
            None => None,
        }
    }
}


/// The view of an alt's definition is that of the definition it carries.
pub proof fn lemma_alt_definition_view(a: AltEntry)
    ensures
        match a.spec_definition() {
            Some(d) => a@.definition == Some(d@),
            None => a@.definition is None,
        },
{
}

} // verus!
