//! The `sametypesequence` of a Stardict dictionary: the one kind every
//! definition has.
//!
//! See <https://code.google.com/archive/p/babiloo/wikis/StarDict_format.wiki>

use vstd::prelude::*;

use crate::glossary::glossary_info::{info_get};
use crate::glossary::{Definition, Glossary, GlossaryInfo};
use crate::strs::str_eq;

verus! {

/// The kind every definition of a Stardict dictionary has.
#[derive(Debug, Clone, Copy, PartialEq, Eq, Structural, Hash)]
pub enum SameTypeSequence {
    /// `h`: html.
    Html,
    /// `m`: plain text.
    Text,
    /// Not given: the kinds may differ.
    Empty,
}

/// What [`SameTypeSequence::to_format_string`] gives.
pub open spec fn sts_letter(s: SameTypeSequence) -> Seq<char> {
    match s {
        SameTypeSequence::Html => "h"@,
        SameTypeSequence::Text => "m"@,
        SameTypeSequence::Empty => ""@,
    }
}

/// What [`SameTypeSequence::from_opt_str`] gives: `h` is html, `m` text,
/// anything else (or nothing) none.
pub open spec fn sts_from_opt(s: Option<Seq<char>>) -> SameTypeSequence {
    match s {
        Some(v) => if v == "h"@ {
            SameTypeSequence::Html
        } else if v == "m"@ {
            SameTypeSequence::Text
        } else {
            SameTypeSequence::Empty
        },
        None => SameTypeSequence::Empty,
    }
}

/// The sequence an info names under `sametypesequence`.
pub open spec fn sts_from_info(info: Seq<(Seq<char>, Seq<char>)>) -> SameTypeSequence {
    sts_from_opt(info_get(info, "sametypesequence"@))
}

/// The kind of a text or html definition.
pub open spec fn definition_kind(d: Definition) -> SameTypeSequence {
    match d {
        Definition::Html(_) => SameTypeSequence::Html,
        _ => SameTypeSequence::Text,
    }
}

/// Whether a definition is text or html.
pub open spec fn is_plain(d: Definition) -> bool {
    !(d is Yomitan)
}

/// The one kind all the definitions have, if they all have one.
pub open spec fn common_kind(entries: Seq<crate::glossary::Entry>) -> SameTypeSequence {
    if entries.len() > 0 && (forall|i: int|
        0 <= i < entries.len() ==> definition_kind(*(#[trigger] entries[i]).spec_definition())
            == definition_kind(*entries[0].spec_definition())) {
        definition_kind(*entries[0].spec_definition())
    } else {
        SameTypeSequence::Empty
    }
}

impl SameTypeSequence {
    /// The letter the `.ifo` holds.
    pub fn to_format_string(self) -> (r: &'static str)
        ensures
            r@ == sts_letter(self),
    {
        match self {
            Self::Html => "h",
            Self::Text => "m",
            Self::Empty => "",
        }
    }

    /// The sequence a `sametypesequence` value names.
    pub fn from_opt_str(s: Option<&str>) -> (r: Self)
        ensures
            r == sts_from_opt(
                match s {
                    Some(v) => Some(v@),
                    None => None,
                },
            ),
    {
        match s {
            Some(v) => if str_eq(v, "h") {
                Self::Html
            } else if str_eq(v, "m") {
                Self::Text
            } else {
                Self::Empty
            },
            None => Self::Empty,
        }
    }

    /// The sequence the info names: all a reader has before any definition.
    pub fn from_info(info: &GlossaryInfo) -> (r: Self)
        requires
            info.wf(),
        ensures
            r == sts_from_info(info@),
    {
        let v = info.get("sametypesequence");
        let r = Self::from_opt_str(v);
        r
    }

    /// The sequence the info names, or else the one kind every definition
    /// has (none where they differ or there are none).
    pub fn from_glossary(glossary: &Glossary) -> (r: Self)
        requires
            glossary.info.wf(),
            sts_from_info(glossary.info@) == SameTypeSequence::Empty ==> forall|i: int|
                0 <= i < glossary.entries@.len() ==> is_plain(
                    *(#[trigger] glossary.entries@[i]).spec_definition(),
                ),
        ensures
            r == match sts_from_info(glossary.info@) {
                SameTypeSequence::Empty => common_kind(glossary.entries@),
                other => other,
            },
    {
        match Self::from_info(&glossary.info) {
            SameTypeSequence::Empty => {
                let n = glossary.entries.len();
                if n == 0 {
                    return SameTypeSequence::Empty;
                }
                let first = kind_of(glossary.entries[0].definition());
                for i in 1..n
                    invariant
                        n == glossary.entries@.len(),
                        n > 0,
                        sts_from_info(glossary.info@) == SameTypeSequence::Empty,
                        first == definition_kind(*glossary.entries@[0].spec_definition()),
                        forall|j: int|
                            0 <= j < i ==> definition_kind(
                                *(#[trigger] glossary.entries@[j]).spec_definition(),
                            ) == first,
                {
                    let k = kind_of(glossary.entries[i].definition());
                    assert(k == definition_kind(*glossary.entries@[i as int].spec_definition()));
                    if k != first {
                        proof {
                            let es = glossary.entries@;
                            assert(definition_kind(*es[i as int].spec_definition()) != definition_kind(
                                *es[0].spec_definition(),
                            ));
                            assert(!(forall|j: int|
                                0 <= j < es.len() ==> definition_kind(*(#[trigger] es[j]).spec_definition())
                                    == definition_kind(*es[0].spec_definition())));
                        }
                        return SameTypeSequence::Empty;
                    }
                }
                first
            },
            other => other,
        }
    }

    /// A definition of this kind holding `s`: html for `h`, text otherwise.
    pub fn as_definition(self, s: String) -> (r: Definition)
        ensures
            r == match self {
                SameTypeSequence::Html => Definition::Html(s),
                _ => Definition::Text(s),
            },
    {
        match self {
            Self::Html => Definition::Html(s),
            _ => Definition::Text(s),
        }
    }
}

fn kind_of(d: &Definition) -> (r: SameTypeSequence)
    ensures
        r == definition_kind(*d),
{
    match d {
        Definition::Html(_) => SameTypeSequence::Html,
        _ => SameTypeSequence::Text,
    }
}

} // verus!
