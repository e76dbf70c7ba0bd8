//! How the records of an .mdx split back into the record of each key.

use vstd::prelude::*;

use crate::formats::mdict::readback::{lemma_nul_after, no_nul};
use crate::formats::mdict::reader::split_records;
use crate::formats::mdict::writer::{record_of, records_of, KeyRef};
use crate::formats::yomitan::TagBankEntry;
use crate::glossary::definition::definition_to_html;
use crate::glossary::entry::{utf8_of, Entry};

verus! {

/// The text of a key's record, before its terminating zero byte.
pub open spec fn record_text(entries: Seq<Entry>, links: Seq<char>, bank: Seq<TagBankEntry>, r: KeyRef) -> Seq<
    u8,
> {
    match r.alt {
        Some(_) => utf8_of("@@@LINK="@) + utf8_of(entries[r.entry as int]@.term),
        None => utf8_of(links + definition_to_html(*entries[r.entry as int].spec_definition(), bank)),
    }
}

/// The records of some keys are those of a first part of them followed by
/// those of the rest.
proof fn lemma_records_split(
    entries: Seq<Entry>,
    links: Seq<char>,
    bank: Seq<TagBankEntry>,
    keys: Seq<KeyRef>,
    i: int,
)
    requires
        0 <= i <= keys.len(),
    ensures
        records_of(entries, links, bank, keys) == records_of(entries, links, bank, keys.take(i)) + records_of(
            entries,
            links,
            bank,
            keys.skip(i),
        ),
    decreases keys.len(),
{
    if i == keys.len() {
        assert(keys.take(i) =~= keys);
        assert(keys.skip(i) =~= Seq::<KeyRef>::empty());
        assert(records_of(entries, links, bank, keys.skip(i)) == Seq::<u8>::empty());
        assert(records_of(entries, links, bank, keys) + Seq::<u8>::empty() =~= records_of(
            entries,
            links,
            bank,
            keys,
        ));
    } else {
        lemma_records_split(entries, links, bank, keys.drop_last(), i);
        assert(keys.drop_last().take(i) =~= keys.take(i));
        assert(keys.skip(i).drop_last() =~= keys.drop_last().skip(i));
        assert(keys.skip(i).last() == keys.last());
        assert(records_of(entries, links, bank, keys.skip(i)) == records_of(
            entries,
            links,
            bank,
            keys.drop_last().skip(i),
        ) + record_of(entries, links, bank, keys.last()));
    }
}

/// The records of the keys from `i` on start with that of key `i`.
proof fn lemma_records_front(
    entries: Seq<Entry>,
    links: Seq<char>,
    bank: Seq<TagBankEntry>,
    keys: Seq<KeyRef>,
    i: int,
)
    requires
        0 <= i < keys.len(),
    ensures
        records_of(entries, links, bank, keys.skip(i)) == record_of(entries, links, bank, keys[i])
            + records_of(entries, links, bank, keys.skip(i + 1)),
{
    let rest = keys.skip(i);
    lemma_records_split(entries, links, bank, rest, 1);
    assert(rest.take(1) =~= seq![keys[i]]);
    assert(rest.skip(1) =~= keys.skip(i + 1));
    assert(seq![keys[i]].drop_last() =~= Seq::<KeyRef>::empty());
    assert(records_of(entries, links, bank, Seq::<KeyRef>::empty()) == Seq::<u8>::empty());
    assert(records_of(entries, links, bank, seq![keys[i]]) == records_of(entries, links, bank, Seq::<KeyRef>::empty())
        + record_of(entries, links, bank, keys[i]));
    assert(records_of(entries, links, bank, seq![keys[i]]) =~= record_of(entries, links, bank, keys[i]));
}

/// Splitting the records of the keys gives back each record's text.
pub proof fn lemma_split_records_of(
    entries: Seq<Entry>,
    links: Seq<char>,
    bank: Seq<TagBankEntry>,
    keys: Seq<KeyRef>,
    i: int,
)
    requires
        0 <= i <= keys.len(),
        forall|j: int| 0 <= j < keys.len() ==> no_nul(#[trigger] record_text(entries, links, bank, keys[j])),
    ensures
        split_records(
            records_of(entries, links, bank, keys),
            records_of(entries, links, bank, keys.take(i)).len() as int,
            (keys.len() - i) as nat,
        ) == Some(keys.skip(i).map_values(|r: KeyRef| record_text(entries, links, bank, r))),
    decreases keys.len() - i,
{
    let all = records_of(entries, links, bank, keys);
    let start = records_of(entries, links, bank, keys.take(i)).len() as int;
    lemma_records_split(entries, links, bank, keys, i);
    if i == keys.len() {
        assert(keys.skip(i) =~= Seq::<KeyRef>::empty());
        assert(keys.skip(i).map_values(|r: KeyRef| record_text(entries, links, bank, r)) =~= Seq::<
            Seq<u8>,
        >::empty());
    } else {
        lemma_records_front(entries, links, bank, keys, i);
        let t = record_text(entries, links, bank, keys[i]);
        assert(record_of(entries, links, bank, keys[i]) =~= t + seq![0u8]);
        let z = start + t.len();
        let tail = records_of(entries, links, bank, keys.skip(i + 1));
        let head = records_of(entries, links, bank, keys.take(i));
        assert(all =~= head + t + seq![0u8] + tail);
        assert(all[z] == 0);
        assert(no_nul(t));
        assert forall|j: int| start <= j < z implies all[j] != 0 by {
            assert(all[j] == t[j - start]);
        }
        lemma_nul_after(all, start, z);
        assert(all.subrange(start, z) =~= t);
        lemma_split_records_of(entries, links, bank, keys, i + 1);
        lemma_records_split(entries, links, bank, keys, i + 1);
        assert(keys.take(i + 1) =~= keys.take(i).push(keys[i]));
        assert(keys.take(i + 1).drop_last() =~= keys.take(i));
        assert(records_of(entries, links, bank, keys.take(i + 1)).len() == z + 1);
        assert(keys.skip(i).map_values(|r: KeyRef| record_text(entries, links, bank, r)) =~= seq![t]
            + keys.skip(i + 1).map_values(|r: KeyRef| record_text(entries, links, bank, r)));
    }
}

} // verus!
