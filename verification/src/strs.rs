//! Text as sequences of characters: the conversions between `String` and
//! `Vec<char>`, and the searching, splitting and replacing that the formats
//! are written with.

use vstd::prelude::*;
use vstd::string::StringExecFns;

verus! {

/// The characters of `s`.
pub(crate) fn chars_of(s: &str) -> (v: Vec<char>)
    ensures
        v@ == s@,
{
    broadcast use vstd::string::axiom_spec_iter;

    let mut v: Vec<char> = Vec::new();
    for c in it: s.chars()
        invariant
            v@ == it.seq().take(it.index() as int),
            it.seq() == s@,
    {
        v.push(c);
        assert(v@ =~= it.seq().take(it.index() + 1));
    }
    assert(v@ =~= s@);
    v
}

/// The string made of the characters `v`.
#[verifier::external_body]
pub(crate) fn string_of(v: &[char]) -> (s: String)
    ensures
        s@ == v@,
{
    v.iter().collect()
}

/// Whether two strings hold the same characters (`str`'s `==`).
#[verifier::external_body]
pub(crate) fn str_eq(a: &str, b: &str) -> (r: bool)
    ensures
        r == (a@ == b@),
{
    a == b
}

/// Whether `c` has the Unicode `White_Space` property.
pub uninterp spec fn is_unicode_whitespace(c: char) -> bool;

/// Whether `c` is alphabetic or numeric in Unicode's sense.
pub uninterp spec fn is_unicode_alphanumeric(c: char) -> bool;

/// The full Unicode lowercase mapping of a whole string.
pub uninterp spec fn is_unicode_lowercase_of(s: Seq<char>) -> Seq<char>;

/// Calls `char::is_whitespace`.
#[verifier::external_body]
pub(crate) fn char_is_whitespace(c: char) -> (r: bool)
    ensures
        r == is_unicode_whitespace(c),
{
    c.is_whitespace()
}

/// Whether `c` is an ASCII letter or digit.
pub open spec fn is_ascii_alphanumeric_spec(c: char) -> bool {
    ('0' <= c && c <= '9') || ('a' <= c && c <= 'z') || ('A' <= c && c <= 'Z')
}

/// Calls `char::is_alphanumeric`; the result is named, and on ASCII it is
/// what the documentation gives: a letter or a digit.
#[verifier::external_body]
pub(crate) fn char_is_alphanumeric(c: char) -> (r: bool)
    ensures
        r == is_unicode_alphanumeric(c),
        (c as u32) < 128 ==> (r <==> is_ascii_alphanumeric_spec(c)),
{
    c.is_alphanumeric()
}

/// Calls `str::to_lowercase`: the full Unicode lowercase mapping of the whole
/// string (which is not a per-character mapping, for the final sigma), under a name.
#[verifier::external_body]
pub(crate) fn to_lowercase(s: &str) -> (r: String)
    ensures
        r@ == is_unicode_lowercase_of(s@),
{
    s.to_lowercase()
}

/// Appends the characters of `s`.
pub fn push_str(out: &mut Vec<char>, s: &str)
    ensures
        final(out)@ == old(out)@ + s@,
{
    let cs = chars_of(s);
    push_chars(out, &cs);
}

/// Appends `cs`.
pub fn push_chars(out: &mut Vec<char>, cs: &[char])
    ensures
        final(out)@ == old(out)@ + cs@,
{
    let ghost start = out@;
    let n = cs.len();
    for i in 0..n
        invariant
            n == cs@.len(),
            out@ == start + cs@.subrange(0, i as int),
    {
        out.push(cs[i]);
        assert(cs@.subrange(0, i + 1) =~= cs@.subrange(0, i as int).push(cs@[i as int]));
    }
    assert(cs@.subrange(0, n as int) =~= cs@);
}

/// Whether `pat` occurs in `s` at position `i`.
pub open spec fn occurs_at(s: Seq<char>, i: int, pat: Seq<char>) -> bool {
    0 <= i && i + pat.len() <= s.len() && s.subrange(i, i + pat.len()) == pat
}

/// Decides [`occurs_at`].
pub fn matches_at(s: &[char], i: usize, pat: &[char]) -> (r: bool)
    ensures
        r == occurs_at(s@, i as int, pat@),
{
    if i > s.len() || pat.len() > s.len() - i {
        return false;
    }
    let n = pat.len();
    let slen = s.len();
    for k in 0..n
        invariant
            n == pat@.len(),
            slen == s@.len(),
            i + n <= s@.len(),
            forall|j: int| 0 <= j < k ==> s@[i + j] == pat@[j],
    {
        assert(i + k < s@.len());
        if s[i + k] != pat[k] {
            assert(s@.subrange(i as int, i + n)[k as int] != pat@[k as int]);
            return false;
        }
    }
    assert(s@.subrange(i as int, i + n) =~= pat@);
    true
}

/// `s` with every non-overlapping occurrence of `pat`, leftmost first,
/// replaced by `rep` (what `str::replace` does for a non-empty pattern).
pub open spec fn replace_spec(s: Seq<char>, pat: Seq<char>, rep: Seq<char>) -> Seq<char>
    decreases s.len(),
{
    if pat.len() == 0 || s.len() == 0 {
        s
    } else if occurs_at(s, 0, pat) {
        rep + replace_spec(s.skip(pat.len() as int), pat, rep)
    } else {
        seq![s[0]] + replace_spec(s.skip(1), pat, rep)
    }
}

/// Replaces every non-overlapping occurrence of `pat` in `s` by `rep`.
pub fn replace_all(s: &str, pat: &str, rep: &str) -> (r: String)
    requires
        pat@.len() > 0,
    ensures
        r@ == replace_spec(s@, pat@, rep@),
{
    let cs = chars_of(s);
    let ps = chars_of(pat);
    let rs = chars_of(rep);
    let out = replace_chars(&cs, &ps, &rs);
    string_of(&out)
}

/// [`replace_all`] on characters.
pub fn replace_chars(cs: &[char], ps: &[char], rs: &[char]) -> (out: Vec<char>)
    requires
        ps@.len() > 0,
    ensures
        out@ == replace_spec(cs@, ps@, rs@),
{
    let mut out: Vec<char> = Vec::new();
    let mut i: usize = 0;
    let n = cs.len();
    assert(cs@.skip(0) =~= cs@);
    while i < n
        invariant
            n == cs@.len(),
            i <= n,
            ps@.len() > 0,
            out@ + replace_spec(cs@.skip(i as int), ps@, rs@) == replace_spec(cs@, ps@, rs@),
        decreases n - i,
    {
        let ghost rest = cs@.skip(i as int);
        if matches_at(cs, i, ps) {
            assert(rest.subrange(0, ps@.len() as int) =~= cs@.subrange(i as int, i + ps@.len()));
            assert(rest.skip(ps@.len() as int) =~= cs@.skip(i + ps@.len()));
            push_chars(&mut out, rs);
            i = i + ps.len();
            assert(out@ + replace_spec(cs@.skip(i as int), ps@, rs@) =~= replace_spec(cs@, ps@, rs@));
        } else {
            assert(!occurs_at(rest, 0, ps@)) by {
                if occurs_at(rest, 0, ps@) {
                    assert(rest.subrange(0, ps@.len() as int) =~= cs@.subrange(i as int, i + ps@.len()));
                }
            }
            assert(rest.skip(1) =~= cs@.skip(i + 1));
            out.push(cs[i]);
            i = i + 1;
            assert(out@ + replace_spec(cs@.skip(i as int), ps@, rs@) =~= replace_spec(cs@, ps@, rs@));
        }
    }
    assert(cs@.skip(i as int) =~= Seq::<char>::empty());
    assert(out@ + replace_spec(cs@.skip(i as int), ps@, rs@) =~= out@);
    out
}

/// The index of the first `c` in `s` at or after `from`, if any.
pub open spec fn find_from(s: Seq<char>, from: int, c: char) -> Option<int>
    decreases s.len() - from,
{
    if from < 0 || from >= s.len() {
        None
    } else if s[from] == c {
        Some(from)
    } else {
        find_from(s, from + 1, c)
    }
}

/// Properties of [`find_from`].
pub proof fn lemma_find_from(s: Seq<char>, from: int, c: char)
    requires
        0 <= from,
    ensures
        match find_from(s, from, c) {
            Some(k) => from <= k < s.len() && s[k] == c && forall|j: int| from <= j < k ==> s[j] != c,
            None => forall|j: int| from <= j < s.len() ==> s[j] != c,
        },
    decreases s.len() - from,
{
    if from < s.len() && s[from] != c {
        lemma_find_from(s, from + 1, c);
    }
}

/// Finds the first `c` in `s` at or after `from`.
pub fn find_char(s: &[char], from: usize, c: char) -> (r: Option<usize>)
    ensures
        r matches Some(k) ==> find_from(s@, from as int, c) == Some(k as int),
        r is None ==> find_from(s@, from as int, c) is None,
{
    let mut i = from;
    while i < s.len()
        invariant
            from <= i,
            find_from(s@, from as int, c) == find_from(s@, i as int, c),
        decreases s.len() - i,
    {
        if s[i] == c {
            return Some(i);
        }
        i = i + 1;
    }
    None
}

/// The pieces of `s` between the occurrences of `c`, as `str::split` cuts them.
pub open spec fn split_spec(s: Seq<char>, c: char) -> Seq<Seq<char>>
    decreases s.len(),
{
    match find_from(s, 0, c) {
        Some(k) => {
            if 0 <= k < s.len() {
                seq![s.subrange(0, k)] + split_spec(s.skip(k + 1), c)
            } else {
                seq![s]
            }
        },
        None => seq![s],
    }
}

/// Splits `s` at every `c`.
pub fn split_char(s: &[char], c: char) -> (r: Vec<Vec<char>>)
    ensures
        r@.len() == split_spec(s@, c).len(),
        forall|i: int| 0 <= i < r@.len() ==> #[trigger] r@[i]@ == split_spec(s@, c)[i],
{
    let mut out: Vec<Vec<char>> = Vec::new();
    let mut start: usize = 0;
    assert(s@.skip(0) =~= s@);
    loop
        invariant
            start <= s@.len(),
            out@.len() + split_spec(s@.skip(start as int), c).len() == split_spec(s@, c).len(),
            forall|i: int| 0 <= i < out@.len() ==> #[trigger] out@[i]@ == split_spec(s@, c)[i],
            forall|i: int|
                0 <= i < split_spec(s@.skip(start as int), c).len() ==> split_spec(s@, c)[out@.len() + i]
                    == #[trigger] split_spec(s@.skip(start as int), c)[i],
        decreases s@.len() - start,
    {
        let ghost rest = s@.skip(start as int);
        let ghost old_out = out@;
        proof {
            lemma_find_from(s@, start as int, c);
        }
        match find_char(s, start, c) {
            Some(k) => {
                proof {
                    assert(start <= k < s@.len());
                    assert forall|j: int| 0 <= j < k - start implies rest[j] != c by {
                        assert(rest[j] == s@[start + j]);
                    }
                    assert(rest[k - start] == s@[k as int]);
                    lemma_find_unique(rest, 0, c, k - start);
                    assert(rest.subrange(0, k - start) =~= s@.subrange(start as int, k as int));
                    assert(rest.skip(k - start + 1) =~= s@.skip(k + 1));
                    assert(split_spec(rest, c) == seq![rest.subrange(0, k - start)] + split_spec(
                        rest.skip(k - start + 1),
                        c,
                    ));
                }
                let piece = slice_to_vec(s, start, k);
                assert(k < s.len());
                out.push(piece);
                start = k + 1;
                proof {
                    let tail = split_spec(s@.skip(start as int), c);
                    assert(split_spec(rest, c) == seq![piece@] + tail);
                    assert forall|i: int| 0 <= i < out@.len() implies #[trigger] out@[i]@ == split_spec(
                        s@,
                        c,
                    )[i] by {
                        if i == out@.len() - 1 {
                            assert(split_spec(rest, c)[0] == piece@);
                        }
                    }
                    assert forall|i: int| 0 <= i < tail.len() implies split_spec(s@, c)[out@.len() + i]
                        == #[trigger] tail[i] by {
                        assert(split_spec(rest, c)[i + 1] == tail[i]);
                    }
                }
            },
            None => {
                proof {
                    assert(find_from(rest, 0, c) is None) by {
                        lemma_find_from(rest, 0, c);
                        if find_from(rest, 0, c) is Some {
                            let j = find_from(rest, 0, c)->0;
                            assert(rest[j] == s@[start + j]);
                        }
                    }
                    assert(rest =~= s@.subrange(start as int, s@.len() as int));
                    assert(split_spec(rest, c) == seq![rest]);
                }
                let piece = slice_to_vec(s, start, s.len());
                out.push(piece);
                proof {
                    assert forall|i: int| 0 <= i < out@.len() implies #[trigger] out@[i]@ == split_spec(
                        s@,
                        c,
                    )[i] by {
                        if i == out@.len() - 1 {
                            assert(split_spec(rest, c)[0] == piece@);
                        }
                    }
                }
                return out;
            },
        }
    }
}

/// Where the first `c` at or after `from` is known, [`find_from`] says so.
pub proof fn lemma_find_unique(s: Seq<char>, from: int, c: char, k: int)
    requires
        0 <= from <= k < s.len(),
        s[k] == c,
        forall|j: int| from <= j < k ==> s[j] != c,
    ensures
        find_from(s, from, c) == Some(k),
    decreases k - from,
{
    if from < k {
        lemma_find_unique(s, from + 1, c, k);
    }
}

/// A copy of `s[from..to]`.
pub fn slice_to_vec(s: &[char], from: usize, to: usize) -> (r: Vec<char>)
    requires
        from <= to <= s@.len(),
    ensures
        r@ == s@.subrange(from as int, to as int),
{
    let mut r: Vec<char> = Vec::new();
    for i in from..to
        invariant
            to <= s@.len(),
            r@ == s@.subrange(from as int, i as int),
    {
        r.push(s[i]);
        assert(s@.subrange(from as int, i + 1) =~= s@.subrange(from as int, i as int).push(s@[i as int]));
    }
    r
}

/// The index of the first character of `s` that is not whitespace (or its length).
pub open spec fn trim_start_index(s: Seq<char>) -> int
    decreases s.len(),
{
    if s.len() == 0 || !is_unicode_whitespace(s[0]) {
        0
    } else {
        1 + trim_start_index(s.skip(1))
    }
}

/// `s` without leading whitespace.
pub open spec fn trim_start_spec(s: Seq<char>) -> Seq<char> {
    s.skip(trim_start_index(s))
}

/// `s` without trailing whitespace.
pub open spec fn trim_end_spec(s: Seq<char>) -> Seq<char>
    decreases s.len(),
{
    if s.len() == 0 || !is_unicode_whitespace(s.last()) {
        s
    } else {
        trim_end_spec(s.drop_last())
    }
}

/// `s` without leading and trailing whitespace (`str::trim`).
pub open spec fn trim_spec(s: Seq<char>) -> Seq<char> {
    trim_end_spec(trim_start_spec(s))
}

proof fn lemma_trim_start_index(s: Seq<char>)
    ensures
        0 <= trim_start_index(s) <= s.len(),
        forall|j: int| 0 <= j < trim_start_index(s) ==> is_unicode_whitespace(#[trigger] s[j]),
        trim_start_index(s) < s.len() ==> !is_unicode_whitespace(s[trim_start_index(s)]),
    decreases s.len(),
{
    if s.len() > 0 && is_unicode_whitespace(s[0]) {
        lemma_trim_start_index(s.skip(1));
        assert forall|j: int| 0 <= j < trim_start_index(s) implies is_unicode_whitespace(#[trigger] s[j]) by {
            if j > 0 {
                assert(s[j] == s.skip(1)[j - 1]);
            }
        }
    }
}

/// Where the first non-whitespace character is known, [`trim_start_index`] is it.
pub proof fn lemma_trim_start_index_unique(s: Seq<char>, k: int)
    requires
        0 <= k <= s.len(),
        forall|j: int| 0 <= j < k ==> is_unicode_whitespace(#[trigger] s[j]),
        k < s.len() ==> !is_unicode_whitespace(s[k]),
    ensures
        trim_start_index(s) == k,
    decreases k,
{
    if k > 0 {
        assert(is_unicode_whitespace(s[0]));
        assert forall|j: int| 0 <= j < k - 1 implies is_unicode_whitespace(#[trigger] s.skip(1)[j]) by {
            assert(s.skip(1)[j] == s[j + 1]);
        }
        lemma_trim_start_index_unique(s.skip(1), k - 1);
    }
}

/// Where the last non-whitespace character is known, [`trim_end_spec`] ends there.
pub proof fn lemma_trim_end_unique(s: Seq<char>, k: int)
    requires
        0 <= k <= s.len(),
        forall|j: int| k <= j < s.len() ==> is_unicode_whitespace(#[trigger] s[j]),
        k > 0 ==> !is_unicode_whitespace(s[k - 1]),
    ensures
        trim_end_spec(s) == s.subrange(0, k),
    decreases s.len(),
{
    if s.len() > k {
        assert(is_unicode_whitespace(s.last()));
        lemma_trim_end_unique(s.drop_last(), k);
        assert(s.drop_last().subrange(0, k) =~= s.subrange(0, k));
    } else {
        assert(s.subrange(0, k) =~= s);
    }
}

/// `s` without leading and trailing whitespace.
pub fn trim_chars(s: &[char]) -> (r: Vec<char>)
    ensures
        r@ == trim_spec(s@),
{
    let mut a: usize = 0;
    while a < s.len() && char_is_whitespace(s[a])
        invariant
            a <= s@.len(),
            forall|j: int| 0 <= j < a ==> is_unicode_whitespace(#[trigger] s@[j]),
        decreases s@.len() - a,
    {
        a = a + 1;
    }
    proof {
        lemma_trim_start_index_unique(s@, a as int);
    }
    let mut b: usize = s.len();
    while b > a && char_is_whitespace(s[b - 1])
        invariant
            a <= b <= s@.len(),
            forall|j: int| b <= j < s@.len() ==> is_unicode_whitespace(#[trigger] s@[j]),
        decreases b,
    {
        b = b - 1;
    }
    proof {
        let t = s@.skip(a as int);
        assert forall|j: int| b - a <= j < t.len() implies is_unicode_whitespace(#[trigger] t[j]) by {
            assert(t[j] == s@[a + j]);
        }
        if b > a {
            assert(t[b - a - 1] == s@[b - 1]);
        }
        lemma_trim_end_unique(t, b - a);
        assert(t.subrange(0, b - a) =~= s@.subrange(a as int, b as int));
    }
    slice_to_vec(s, a, b)
}

/// `s` without leading and trailing whitespace.
pub fn trim(s: &str) -> (r: String)
    ensures
        r@ == trim_spec(s@),
{
    let cs = chars_of(s);
    let t = trim_chars(&cs);
    string_of(&t)
}

} // verus!

verus! {

/// A line's text without the carriage return that ends it, if any.
pub open spec fn strip_cr(s: Seq<char>) -> Seq<char> {
    if s.len() > 0 && s.last() == '\r' {
        s.drop_last()
    } else {
        s
    }
}

/// The lines of `s`, as `str::lines` cuts them: split at `\n`, a `\r` before a
/// `\n` dropped, no last empty line after a final `\n`.
pub open spec fn lines_spec(s: Seq<char>) -> Seq<Seq<char>> {
    let pieces = split_spec(s, '\n');
    let body = pieces.drop_last().map_values(|p: Seq<char>| strip_cr(p));
    if pieces.last().len() == 0 {
        body
    } else {
        body.push(pieces.last())
    }
}

/// The pieces of a split are never none.
pub proof fn lemma_split_nonempty(s: Seq<char>, c: char)
    ensures
        split_spec(s, c).len() >= 1,
    decreases s.len(),
{
    lemma_find_from(s, 0, c);
    match find_from(s, 0, c) {
        Some(k) => {
            lemma_split_nonempty(s.skip(k + 1), c);
        },
        None => {},
    }
}

/// The lines of `s`.
pub fn lines(s: &str) -> (r: Vec<Vec<char>>)
    ensures
        r@.len() == lines_spec(s@).len(),
        forall|i: int| 0 <= i < r@.len() ==> #[trigger] r@[i]@ == lines_spec(s@)[i],
{
    let cs = chars_of(s);
    let pieces = split_char(&cs, '\n');
    proof {
        lemma_split_nonempty(s@, '\n');
    }
    let ghost sp = split_spec(s@, '\n');
    let n = pieces.len();
    let mut out: Vec<Vec<char>> = Vec::new();
    for i in 0..n - 1
        invariant
            n == pieces@.len(),
            n == sp.len(),
            n >= 1,
            forall|j: int| 0 <= j < n ==> #[trigger] pieces@[j]@ == sp[j],
            out@.len() == i,
            forall|j: int| 0 <= j < i ==> #[trigger] out@[j]@ == strip_cr(sp[j]),
    {
        let p = &pieces[i];
        if p.len() > 0 && p[p.len() - 1] == '\r' {
            let q = slice_to_vec(p, 0, p.len() - 1);
            assert(q@ =~= p@.drop_last());
            out.push(q);
        } else {
            let q = slice_to_vec(p, 0, p.len());
            assert(q@ =~= p@);
            out.push(q);
        }
    }
    let last = &pieces[n - 1];
    if last.len() > 0 {
        let q = slice_to_vec(last, 0, last.len());
        assert(q@ =~= last@);
        out.push(q);
    }
    out
}

/// Whether `c` is an ASCII decimal digit.
pub open spec fn is_digit(c: char) -> bool {
    '0' <= c <= '9'
}

/// The value of a string of ASCII digits.
pub open spec fn digits_value(s: Seq<char>) -> int
    decreases s.len(),
{
    if s.len() == 0 {
        0
    } else {
        digits_value(s.drop_last()) * 10 + (s.last() as int - '0' as int)
    }
}

/// The digits of an unsigned number as `str::parse` takes them: an optional
/// `+` then at least one ASCII digit.
pub open spec fn unsigned_digits(s: Seq<char>) -> Option<Seq<char>> {
    let d = digits_part(s);
    if d.len() > 0 && all_digits(d) {
        Some(d)
    } else {
        None
    }
}

/// `s` without a leading `+`.
pub open spec fn digits_part(s: Seq<char>) -> Seq<char> {
    if s.len() > 0 && s[0] == '+' {
        s.skip(1)
    } else {
        s
    }
}

/// Whether every character of `s` is an ASCII digit.
pub open spec fn all_digits(s: Seq<char>) -> bool {
    forall|i: int| 0 <= i < s.len() ==> is_digit(#[trigger] s[i])
}

/// What `str::parse` gives for an unsigned type whose largest value is `max`.
pub open spec fn parse_unsigned_spec(s: Seq<char>, max: int) -> Option<int> {
    match unsigned_digits(s) {
        Some(d) => if digits_value(d) <= max {
            Some(digits_value(d))
        } else {
            None
        },
        None => None,
    }
}

proof fn lemma_digits_value_monotone(s: Seq<char>, i: int)
    requires
        0 <= i <= s.len(),
        forall|j: int| 0 <= j < s.len() ==> is_digit(#[trigger] s[j]),
    ensures
        digits_value(s.subrange(0, i)) <= digits_value(s),
        0 <= digits_value(s.subrange(0, i)),
    decreases s.len() - i,
{
    if i < s.len() {
        lemma_digits_value_monotone(s, i + 1);
        assert(s.subrange(0, i + 1).drop_last() =~= s.subrange(0, i));
        assert(is_digit(s[i]));
    } else {
        assert(s.subrange(0, i) =~= s);
    }
    lemma_digits_nonneg(s.subrange(0, i));
}

proof fn lemma_digits_nonneg(s: Seq<char>)
    requires
        forall|j: int| 0 <= j < s.len() ==> is_digit(#[trigger] s[j]),
    ensures
        0 <= digits_value(s),
    decreases s.len(),
{
    if s.len() > 0 {
        lemma_digits_nonneg(s.drop_last());
        assert(is_digit(s.last()));
    }
}

/// Parses an unsigned decimal number no larger than `max`, as `str::parse`
/// does for an unsigned integer type.
pub fn parse_unsigned(s: &[char], max: u64) -> (r: Option<u64>)
    ensures
        match r {
            Some(v) => parse_unsigned_spec(s@, max as int) == Some(v as int),
            None => parse_unsigned_spec(s@, max as int) is None,
        },
{
    let start: usize = if s.len() > 0 && s[0] == '+' {
        1
    } else {
        0
    };
    let ghost d = digits_part(s@);
    assert(d =~= s@.skip(start as int));
    if start >= s.len() {
        return None;
    }
    let mut value: u64 = 0;
    let mut i = start;
    let mut overflow = false;
    while i < s.len()
        invariant
            start <= i <= s@.len(),
            d == s@.skip(start as int),
            d == digits_part(s@),
            forall|j: int| start <= j < i ==> is_digit(#[trigger] s@[j]),
            !overflow ==> value as int == digits_value(s@.subrange(start as int, i as int)),
            !overflow ==> value <= max,
            overflow ==> digits_value(s@.subrange(start as int, i as int)) > max,
        decreases s@.len() - i,
    {
        let c = s[i];
        if !('0' <= c && c <= '9') {
            assert(!is_digit(d[i - start]));
            assert(!all_digits(d));
            assert(unsigned_digits(s@) is None);
            return None;
        }
        let digit = (c as u64) - ('0' as u64);
        proof {
            assert(s@.subrange(start as int, i + 1).drop_last() =~= s@.subrange(start as int, i as int));
            assert forall|j: int| 0 <= j < s@.subrange(start as int, i as int).len() implies is_digit(
                #[trigger] s@.subrange(start as int, i as int)[j],
            ) by {
                assert(s@.subrange(start as int, i as int)[j] == s@[start + j]);
            }
            lemma_digits_nonneg(s@.subrange(start as int, i as int));
        }
        if !overflow {
            if digit > max || value > (max - digit) / 10 {
                overflow = true;
                assert(value * 10 + digit > max) by (nonlinear_arith)
                    requires
                        digit > max || value > (max - digit) / 10,
                ;
            } else {
                assert(value * 10 + digit <= max) by (nonlinear_arith)
                    requires
                        value <= (max - digit) / 10,
                        digit <= max,
                ;
                value = value * 10 + digit;
            }
        }
        i = i + 1;
    }
    assert(s@.subrange(start as int, s@.len() as int) =~= d);
    assert(all_digits(d)) by {
        assert forall|j: int| 0 <= j < d.len() implies is_digit(#[trigger] d[j]) by {
            assert(d[j] == s@[start + j]);
        }
    }
    if overflow {
        None
    } else {
        Some(value)
    }
}

/// ASCII lowercase of a character.
pub open spec fn ascii_lower(c: char) -> char {
    if 'A' <= c <= 'Z' {
        ((c as u32) + 32) as char
    } else {
        c
    }
}

/// Whether `a` and `b` are equal up to ASCII case (`str::eq_ignore_ascii_case`).
pub open spec fn eq_ignore_ascii_case_spec(a: Seq<char>, b: Seq<char>) -> bool {
    a.len() == b.len() && forall|i: int| 0 <= i < a.len() ==> ascii_lower(#[trigger] a[i]) == ascii_lower(b[i])
}

fn lower_ascii_char(c: char) -> (r: char)
    ensures
        r == ascii_lower(c),
{
    if 'A' <= c && c <= 'Z' {
        proof {
            assert((c as u32) + 32 <= 'z' as u32);
        }
        let u = (c as u8) + 32;
        proof {
            assert(u as char == ((c as u32) + 32) as char);
        }
        u as char
    } else {
        c
    }
}

/// Whether `a` and `b` are equal up to ASCII case.
pub fn eq_ignore_ascii_case(a: &str, b: &str) -> (r: bool)
    ensures
        r == eq_ignore_ascii_case_spec(a@, b@),
{
    let x = chars_of(a);
    let y = chars_of(b);
    if x.len() != y.len() {
        return false;
    }
    let n = x.len();
    for i in 0..n
        invariant
            n == x@.len(),
            n == y@.len(),
            x@ == a@,
            y@ == b@,
            forall|j: int| 0 <= j < i ==> ascii_lower(#[trigger] x@[j]) == ascii_lower(y@[j]),
    {
        if lower_ascii_char(x[i]) != lower_ascii_char(y[i]) {
            return false;
        }
    }
    true
}

/// The text of valid utf-8 bytes; for invalid ones, what `String::from_utf8_lossy`
/// makes of them (replacement characters), under a name.
pub uninterp spec fn lossy_utf8_of_invalid(b: Seq<u8>) -> Seq<char>;

/// What `String::from_utf8_lossy` gives.
pub open spec fn lossy_utf8(b: Seq<u8>) -> Seq<char> {
    if vstd::utf8::valid_utf8(b) {
        vstd::utf8::decode_utf8(b)
    } else {
        lossy_utf8_of_invalid(b)
    }
}

/// Calls `String::from_utf8_lossy`: for valid utf-8 the decoded text, for
/// invalid bytes a named result.
#[verifier::external_body]
pub(crate) fn utf8_lossy(b: &[u8]) -> (r: String)
    ensures
        r@ == lossy_utf8(b@),
        !vstd::utf8::valid_utf8(b@) ==> r@ == lossy_utf8_of_invalid(b@),
{
    String::from_utf8_lossy(b).into_owned()
}

/// What `String::from_utf16_lossy` gives for some code units.
pub uninterp spec fn lossy_utf16(units: Seq<u16>) -> Seq<char>;

/// Calls `String::from_utf16_lossy`; the result is named.
#[verifier::external_body]
fn utf16_lossy(units: &[u16]) -> (r: String)
    ensures
        r@ == lossy_utf16(units@),
{
    String::from_utf16_lossy(units)
}

/// The little-endian code units of `b`, paired from the start (a last odd
/// byte left out).
pub open spec fn le_units(b: Seq<u8>) -> Seq<u16> {
    Seq::new(b.len() / 2, |i: int| (b[2 * i] + 256 * b[2 * i + 1]) as u16)
}

/// What decoding little-endian UTF-16 bytes gives: their code units, decoded
/// as `String::from_utf16_lossy` does.
pub open spec fn lossy_utf16le(b: Seq<u8>) -> Seq<char> {
    lossy_utf16(le_units(b))
}

/// Decodes little-endian UTF-16 bytes, a last odd byte ignored.
pub fn utf16le_lossy(b: &[u8]) -> (r: String)
    ensures
        r@ == lossy_utf16le(b@),
{
    let mut units: Vec<u16> = Vec::new();
    let len = b.len();
    let n = len / 2;
    for i in 0..n
        invariant
            len == b@.len(),
            n == b@.len() / 2,
            units@ == le_units(b@).take(i as int),
    {
        assert(2 * i + 1 < len) by (nonlinear_arith)
            requires
                i < n,
                n == len / 2,
        ;
        let j = i + i;
        let lo = b[j] as u16;
        let hi = b[j + 1] as u16;
        let u = lo + 256 * hi;
        units.push(u);
        assert(units@ =~= le_units(b@).take(i + 1));
    }
    assert(le_units(b@).take(n as int) =~= le_units(b@));
    utf16_lossy(units.as_slice())
}

} // verus!

verus! {

/// Whether `s` starts with `p`.
pub open spec fn has_prefix(s: Seq<char>, p: Seq<char>) -> bool {
    p.len() <= s.len() && s.subrange(0, p.len() as int) == p
}

/// Calls `str::strip_prefix`: the rest of `s` after `p`, if `s` starts with `p`.
#[verifier::external_body]
pub(crate) fn strip_prefix(s: &str, p: &str) -> (r: Option<String>)
    ensures
        match r {
            Some(rest) => has_prefix(s@, p@) && rest@ == s@.skip(p@.len() as int),
            None => !has_prefix(s@, p@),
        },
{
    s.strip_prefix(p).map(|rest| rest.to_string())
}

/// The decimal digits of `n`.
pub open spec fn decimal_spec(n: nat) -> Seq<char>
    decreases n,
{
    if n < 10 {
        seq![digit_char(n)]
    } else {
        decimal_spec(n / 10).push(digit_char(n % 10))
    }
}

/// The character of a digit.
pub open spec fn digit_char(d: nat) -> char {
    if d == 0 {
        '0'
    } else if d == 1 {
        '1'
    } else if d == 2 {
        '2'
    } else if d == 3 {
        '3'
    } else if d == 4 {
        '4'
    } else if d == 5 {
        '5'
    } else if d == 6 {
        '6'
    } else if d == 7 {
        '7'
    } else if d == 8 {
        '8'
    } else {
        '9'
    }
}

fn digit(d: u64) -> (c: char)
    requires
        d < 10,
    ensures
        c == digit_char(d as nat),
{
    if d == 0 {
        '0'
    } else if d == 1 {
        '1'
    } else if d == 2 {
        '2'
    } else if d == 3 {
        '3'
    } else if d == 4 {
        '4'
    } else if d == 5 {
        '5'
    } else if d == 6 {
        '6'
    } else if d == 7 {
        '7'
    } else if d == 8 {
        '8'
    } else {
        '9'
    }
}

/// Appends the decimal digits of `n`.
pub fn push_decimal(out: &mut String, n: u64)
    ensures
        final(out)@ == old(out)@ + decimal_spec(n as nat),
    decreases n,
{
    if n < 10 {
        let c = digit(n);
        let s = char_string(c);
        out.append(s.as_str());
        assert(decimal_spec(n as nat) =~= seq![c]);
    } else {
        push_decimal(out, n / 10);
        let c = digit(n % 10);
        let s = char_string(c);
        out.append(s.as_str());
    }
}

/// The one-character string of `c`.
#[verifier::external_body]
fn char_string(c: char) -> (s: String)
    ensures
        s@ == seq![c],
{
    c.to_string()
}


/// Replacing never brings in a character that neither the text nor the
/// replacement holds.
pub proof fn lemma_replace_absent(s: Seq<char>, pat: Seq<char>, rep: Seq<char>, ch: char)
    requires
        !s.contains(ch),
        !rep.contains(ch),
    ensures
        !replace_spec(s, pat, rep).contains(ch),
    decreases s.len(),
{
    if pat.len() == 0 || s.len() == 0 {
    } else if occurs_at(s, 0, pat) {
        assert(!s.skip(pat.len() as int).contains(ch)) by {
            if s.skip(pat.len() as int).contains(ch) {
                let j = choose|j: int| 0 <= j < s.skip(pat.len() as int).len() && s.skip(pat.len() as int)[j] == ch;
                assert(s[j + pat.len()] == ch);
            }
        }
        lemma_replace_absent(s.skip(pat.len() as int), pat, rep, ch);
        let r = rep + replace_spec(s.skip(pat.len() as int), pat, rep);
        assert(!r.contains(ch)) by {
            if r.contains(ch) {
                let j = choose|j: int| 0 <= j < r.len() && r[j] == ch;
                if j < rep.len() {
                    assert(rep[j] == ch);
                } else {
                    assert(replace_spec(s.skip(pat.len() as int), pat, rep)[j - rep.len()] == ch);
                }
            }
        }
    } else {
        assert(!s.skip(1).contains(ch)) by {
            if s.skip(1).contains(ch) {
                let j = choose|j: int| 0 <= j < s.skip(1).len() && s.skip(1)[j] == ch;
                assert(s[j + 1] == ch);
            }
        }
        lemma_replace_absent(s.skip(1), pat, rep, ch);
        let r = seq![s[0]] + replace_spec(s.skip(1), pat, rep);
        assert(!r.contains(ch)) by {
            if r.contains(ch) {
                let j = choose|j: int| 0 <= j < r.len() && r[j] == ch;
                if j == 0 {
                    assert(s[0] == ch);
                    assert(s.contains(ch));
                } else {
                    assert(replace_spec(s.skip(1), pat, rep)[j - 1] == ch);
                }
            }
        }
    }
}

/// Replacing a character by text without it leaves none of it.
pub proof fn lemma_replace_removes(s: Seq<char>, ch: char, rep: Seq<char>)
    requires
        !rep.contains(ch),
    ensures
        !replace_spec(s, seq![ch], rep).contains(ch),
    decreases s.len(),
{
    let pat = seq![ch];
    if s.len() == 0 {
    } else if occurs_at(s, 0, pat) {
        lemma_replace_removes(s.skip(1), ch, rep);
        let r = rep + replace_spec(s.skip(1), pat, rep);
        assert(!r.contains(ch)) by {
            if r.contains(ch) {
                let j = choose|j: int| 0 <= j < r.len() && r[j] == ch;
                if j < rep.len() {
                    assert(rep[j] == ch);
                } else {
                    assert(replace_spec(s.skip(1), pat, rep)[j - rep.len()] == ch);
                }
            }
        }
    } else {
        assert(s[0] != ch) by {
            if s[0] == ch {
                assert(s.subrange(0, 1) =~= pat);
            }
        }
        lemma_replace_removes(s.skip(1), ch, rep);
        let r = seq![s[0]] + replace_spec(s.skip(1), pat, rep);
        assert(!r.contains(ch)) by {
            if r.contains(ch) {
                let j = choose|j: int| 0 <= j < r.len() && r[j] == ch;
                if j > 0 {
                    assert(replace_spec(s.skip(1), pat, rep)[j - 1] == ch);
                }
            }
        }
    }
}


proof fn lemma_decimal_len(n: nat)
    ensures
        decimal_spec(n).len() >= 1,
        n >= 10 ==> decimal_spec(n).len() >= 2,
    decreases n,
{
    if n >= 10 {
        lemma_decimal_len(n / 10);
    }
}

/// Distinct numbers have distinct decimal digits.
pub proof fn lemma_decimal_injective(a: nat, b: nat)
    requires
        decimal_spec(a) == decimal_spec(b),
    ensures
        a == b,
    decreases a,
{
    lemma_decimal_len(a);
    lemma_decimal_len(b);
    if a < 10 && b < 10 {
        assert(decimal_spec(a)[0] == digit_char(a));
        assert(decimal_spec(b)[0] == digit_char(b));
    } else if a >= 10 && b >= 10 {
        let da = decimal_spec(a);
        let db = decimal_spec(b);
        assert(da.last() == digit_char(a % 10));
        assert(db.last() == digit_char(b % 10));
        assert(da.drop_last() =~= decimal_spec(a / 10));
        assert(db.drop_last() =~= decimal_spec(b / 10));
        lemma_decimal_injective(a / 10, b / 10);
        assert(a % 10 == b % 10);
    }
}

} // verus!
