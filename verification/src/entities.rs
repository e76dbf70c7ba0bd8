//! Why reading html entities back undoes writing them.

use vstd::prelude::*;

use crate::strs::{occurs_at, replace_spec};
use crate::utils::{escape_html_spec, unescape_html_spec};

verus! {

/// Whether a piece of escaped text can stand before anything without an
/// occurrence of `pat` (which starts with `&`) beginning inside it: it has no
/// `&` past its first character, and where it starts with `&` it differs from
/// `pat` within both.
pub open spec fn inert(t: Seq<char>, pat: Seq<char>) -> bool {
    &&& t.len() > 0
    &&& forall|j: int| 1 <= j < t.len() ==> #[trigger] t[j] != '&'
    &&& t[0] == '&' ==> exists|k: int| 0 <= k < t.len() && k < pat.len() && #[trigger] t[k] != pat[k]
}

/// Replacing `pat` in an inert piece followed by more text leaves the piece.
proof fn lemma_replace_inert(t: Seq<char>, x: Seq<char>, pat: Seq<char>, rep: Seq<char>)
    requires
        pat.len() > 0,
        pat[0] == '&',
        inert(t, pat),
    ensures
        replace_spec(t + x, pat, rep) == t + replace_spec(x, pat, rep),
    decreases t.len(),
{
    let s = t + x;
    assert(!occurs_at(s, 0, pat)) by {
        if occurs_at(s, 0, pat) {
            assert(s.subrange(0, pat.len() as int) == pat);
            if t[0] == '&' {
                let k = choose|k: int| 0 <= k < t.len() && k < pat.len() && #[trigger] t[k] != pat[k];
                assert(s.subrange(0, pat.len() as int)[k] == s[k]);
            } else {
                assert(s.subrange(0, pat.len() as int)[0] == s[0]);
            }
        }
    }
    assert(s.skip(1) =~= t.skip(1) + x);
    if t.len() == 1 {
        assert(t.skip(1) + x =~= x);
        assert(seq![t[0]] =~= t);
    } else {
        let u = t.skip(1);
        assert forall|j: int| 1 <= j < u.len() implies #[trigger] u[j] != '&' by {
            assert(u[j] == t[j + 1]);
        }
        assert(u[0] == t[1]);
        lemma_replace_inert(u, x, pat, rep);
        assert(seq![t[0]] + (u + replace_spec(x, pat, rep)) =~= t + replace_spec(x, pat, rep));
    }
}

/// The pieces after replacing `pat` by `rep` in each that equals it.
pub open spec fn swap_token(ts: Seq<Seq<char>>, pat: Seq<char>, rep: Seq<char>) -> Seq<Seq<char>> {
    ts.map_values(|t: Seq<char>| if t == pat { rep } else { t })
}

/// Replacing `pat` in text cut into pieces that are `pat` or inert replaces
/// exactly the pieces that are `pat`.
pub proof fn lemma_replace_tokens(ts: Seq<Seq<char>>, pat: Seq<char>, rep: Seq<char>)
    requires
        pat.len() > 0,
        pat[0] == '&',
        forall|i: int| 0 <= i < ts.len() ==> #[trigger] ts[i] == pat || inert(ts[i], pat),
    ensures
        replace_spec(ts.flatten(), pat, rep) == swap_token(ts, pat, rep).flatten(),
    decreases ts.len(),
{
    if ts.len() > 0 {
        let rest = ts.drop_first();
        assert forall|i: int| 0 <= i < rest.len() implies #[trigger] rest[i] == pat || inert(rest[i], pat) by {
            assert(rest[i] == ts[i + 1]);
        }
        lemma_replace_tokens(rest, pat, rep);
        let t = ts[0];
        assert(swap_token(ts, pat, rep).drop_first() =~= swap_token(rest, pat, rep));
        assert(ts.flatten() == t + rest.flatten());
        if t == pat {
            let s = t + rest.flatten();
            assert(occurs_at(s, 0, pat)) by {
                assert(s.subrange(0, pat.len() as int) =~= pat);
            }
            assert(s.skip(pat.len() as int) =~= rest.flatten());
        } else {
            lemma_replace_inert(t, rest.flatten(), pat, rep);
        }
    } else {
        assert(swap_token(ts, pat, rep) =~= Seq::<Seq<char>>::empty());
    }
}

/// Replacing a single character works piece by piece.
pub proof fn lemma_replace_char_concat(a: Seq<char>, b: Seq<char>, ch: char, rep: Seq<char>)
    ensures
        replace_spec(a + b, seq![ch], rep) == replace_spec(a, seq![ch], rep) + replace_spec(b, seq![ch], rep),
    decreases a.len(),
{
    let pat = seq![ch];
    if a.len() == 0 {
        assert(a + b =~= b);
        assert(replace_spec(a, pat, rep) + replace_spec(b, pat, rep) =~= replace_spec(b, pat, rep));
    } else {
        let s = a + b;
        assert(occurs_at(s, 0, pat) == occurs_at(a, 0, pat)) by {
            if occurs_at(a, 0, pat) {
                assert(s.subrange(0, 1) =~= a.subrange(0, 1));
            }
            if occurs_at(s, 0, pat) {
                assert(s.subrange(0, 1) =~= a.subrange(0, 1));
            }
        }
        assert(s.skip(1) =~= a.skip(1) + b);
        lemma_replace_char_concat(a.skip(1), b, ch, rep);
        if occurs_at(a, 0, pat) {
            assert(rep + (replace_spec(a.skip(1), pat, rep) + replace_spec(b, pat, rep)) =~= (rep + replace_spec(
                a.skip(1),
                pat,
                rep,
            )) + replace_spec(b, pat, rep));
        } else {
            assert(seq![s[0]] + (replace_spec(a.skip(1), pat, rep) + replace_spec(b, pat, rep)) =~= (seq![a[0]]
                + replace_spec(a.skip(1), pat, rep)) + replace_spec(b, pat, rep));
        }
    }
}

/// Replacing a character that does not occur changes nothing.
proof fn lemma_replace_char_absent(s: Seq<char>, ch: char, rep: Seq<char>)
    requires
        forall|i: int| 0 <= i < s.len() ==> #[trigger] s[i] != ch,
    ensures
        replace_spec(s, seq![ch], rep) == s,
    decreases s.len(),
{
    if s.len() > 0 {
        let pat = seq![ch];
        assert(!occurs_at(s, 0, pat)) by {
            if occurs_at(s, 0, pat) {
                assert(s.subrange(0, 1)[0] == s[0]);
            }
        }
        assert forall|i: int| 0 <= i < s.skip(1).len() implies #[trigger] s.skip(1)[i] != ch by {
            assert(s.skip(1)[i] == s[i + 1]);
        }
        lemma_replace_char_absent(s.skip(1), ch, rep);
        assert(seq![s[0]] + s.skip(1) =~= s);
    }
}

/// A single character replaced by itself or by `rep`.
pub proof fn lemma_replace_one_char(c: char, ch: char, rep: Seq<char>)
    ensures
        replace_spec(seq![c], seq![ch], rep) == if c == ch { rep } else { seq![c] },
{
    let s = seq![c];
    let pat = seq![ch];
    assert(s.skip(1) =~= Seq::<char>::empty());
    assert(replace_spec(Seq::<char>::empty(), pat, rep) == Seq::<char>::empty());
    if c == ch {
        assert(s.subrange(0, 1) =~= pat);
        assert(occurs_at(s, 0, pat));
        assert(replace_spec(s, pat, rep) == rep + replace_spec(s.skip(1), pat, rep));
        assert(rep + Seq::<char>::empty() =~= rep);
    } else {
        assert(!occurs_at(s, 0, pat)) by {
            if occurs_at(s, 0, pat) {
                assert(s.subrange(0, 1)[0] == s[0]);
            }
        }
        assert(seq![c] + Seq::<char>::empty() =~= seq![c]);
    }
}

/// How [`escape_html_spec`] writes one character.
pub open spec fn esc_char(c: char) -> Seq<char> {
    if c == '&' {
        "&amp;"@
    } else if c == '"' {
        "&quot;"@
    } else if c == '<' {
        "&lt;"@
    } else if c == '>' {
        "&gt;"@
    } else {
        seq![c]
    }
}

proof fn reveal_entities()
    ensures
        "&"@ == seq!['&'],
        "\""@ == seq!['"'],
        "<"@ == seq!['<'],
        ">"@ == seq!['>'],
        "&amp;"@ == seq!['&', 'a', 'm', 'p', ';'],
        "&quot;"@ == seq!['&', 'q', 'u', 'o', 't', ';'],
        "&lt;"@ == seq!['&', 'l', 't', ';'],
        "&gt;"@ == seq!['&', 'g', 't', ';'],
{
    reveal_strlit("&");
    reveal_strlit("\"");
    reveal_strlit("<");
    reveal_strlit(">");
    reveal_strlit("&amp;");
    reveal_strlit("&quot;");
    reveal_strlit("&lt;");
    reveal_strlit("&gt;");
    assert("&"@ =~= seq!['&']);
    assert("\""@ =~= seq!['"']);
    assert("<"@ =~= seq!['<']);
    assert(">"@ =~= seq!['>']);
    assert("&amp;"@ =~= seq!['&', 'a', 'm', 'p', ';']);
    assert("&quot;"@ =~= seq!['&', 'q', 'u', 'o', 't', ';']);
    assert("&lt;"@ =~= seq!['&', 'l', 't', ';']);
    assert("&gt;"@ =~= seq!['&', 'g', 't', ';']);
}

/// Escaping works piece by piece.
proof fn lemma_escape_concat(a: Seq<char>, b: Seq<char>)
    ensures
        escape_html_spec(a + b) == escape_html_spec(a) + escape_html_spec(b),
{
    reveal_entities();
    let r1 = |x: Seq<char>| replace_spec(x, seq!['&'], "&amp;"@);
    let r2 = |x: Seq<char>| replace_spec(x, seq!['"'], "&quot;"@);
    let r3 = |x: Seq<char>| replace_spec(x, seq!['<'], "&lt;"@);
    lemma_replace_char_concat(a, b, '&', "&amp;"@);
    lemma_replace_char_concat(r1(a), r1(b), '"', "&quot;"@);
    lemma_replace_char_concat(r2(r1(a)), r2(r1(b)), '<', "&lt;"@);
    lemma_replace_char_concat(r3(r2(r1(a))), r3(r2(r1(b))), '>', "&gt;"@);
}

/// How one character is escaped.
proof fn lemma_escape_char(c: char)
    ensures
        escape_html_spec(seq![c]) == esc_char(c),
{
    reveal_entities();
    let amp = seq!['&', 'a', 'm', 'p', ';'];
    let quot = seq!['&', 'q', 'u', 'o', 't', ';'];
    let lt = seq!['&', 'l', 't', ';'];
    let gt = seq!['&', 'g', 't', ';'];
    lemma_replace_one_char(c, '&', amp);
    let s1 = replace_spec(seq![c], seq!['&'], amp);
    if c == '&' {
        lemma_replace_char_absent(amp, '"', quot);
        lemma_replace_char_absent(amp, '<', lt);
        lemma_replace_char_absent(amp, '>', gt);
    } else {
        lemma_replace_one_char(c, '"', quot);
        if c == '"' {
            lemma_replace_char_absent(quot, '<', lt);
            lemma_replace_char_absent(quot, '>', gt);
        } else {
            lemma_replace_one_char(c, '<', lt);
            if c == '<' {
                lemma_replace_char_absent(lt, '>', gt);
            } else {
                lemma_replace_one_char(c, '>', gt);
            }
        }
    }
}

/// Escaping writes each character as [`esc_char`] does.
pub proof fn lemma_escape_pieces(s: Seq<char>)
    ensures
        escape_html_spec(s) == s.map_values(|c: char| esc_char(c)).flatten(),
    decreases s.len(),
{
    let ts = s.map_values(|c: char| esc_char(c));
    if s.len() == 0 {
        reveal_entities();
        assert(replace_spec(s, seq!['&'], "&amp;"@) == s);
        assert(replace_spec(s, seq!['"'], "&quot;"@) == s);
        assert(replace_spec(s, seq!['<'], "&lt;"@) == s);
        assert(replace_spec(s, seq!['>'], "&gt;"@) == s);
        assert(ts.flatten() =~= Seq::<char>::empty());
    } else {
        let rest = s.drop_first();
        lemma_escape_pieces(rest);
        assert(s =~= seq![s[0]] + rest);
        lemma_escape_concat(seq![s[0]], rest);
        lemma_escape_char(s[0]);
        assert(ts.drop_first() =~= rest.map_values(|c: char| esc_char(c)));
    }
}

/// `t` with `pat` made `rep` where it is all of `t`.
pub open spec fn swap_one(t: Seq<char>, pat: Seq<char>, rep: Seq<char>) -> Seq<char> {
    if t == pat {
        rep
    } else {
        t
    }
}

/// An escaped character goes back through the four replacements of
/// [`unescape_html_spec`], each one meeting it as a whole or not at all.
proof fn lemma_char_stages(c: char)
    ensures
        ({
            let t0 = esc_char(c);
            let t1 = swap_one(t0, "&lt;"@, "<"@);
            let t2 = swap_one(t1, "&gt;"@, ">"@);
            let t3 = swap_one(t2, "&quot;"@, "\""@);
            &&& t0 == "&lt;"@ || inert(t0, "&lt;"@)
            &&& t1 == "&gt;"@ || inert(t1, "&gt;"@)
            &&& t2 == "&quot;"@ || inert(t2, "&quot;"@)
            &&& t3 == "&amp;"@ || inert(t3, "&amp;"@)
            &&& swap_one(t3, "&amp;"@, "&"@) == seq![c]
        }),
{
    reveal_entities();
    let amp = seq!['&', 'a', 'm', 'p', ';'];
    let quot = seq!['&', 'q', 'u', 'o', 't', ';'];
    let lt = seq!['&', 'l', 't', ';'];
    let gt = seq!['&', 'g', 't', ';'];
    assert(amp != lt && amp != gt && amp != quot) by {
        assert(amp[1] != lt[1]);
        assert(amp[1] != gt[1]);
        assert(amp[1] != quot[1]);
    }
    assert(quot != lt && quot != gt) by {
        assert(quot[1] != lt[1]);
        assert(quot[1] != gt[1]);
    }
    assert(gt != lt) by {
        assert(gt[1] != lt[1]);
    }
    assert(inert(amp, lt) && inert(amp, gt) && inert(amp, quot)) by {
        assert(amp[1] != lt[1]);
        assert(amp[1] != gt[1]);
        assert(amp[1] != quot[1]);
    }
    assert(inert(quot, lt) && inert(quot, gt)) by {
        assert(quot[1] != lt[1]);
        assert(quot[1] != gt[1]);
    }
    assert(inert(gt, lt)) by {
        assert(gt[1] != lt[1]);
    }
    assert(inert(seq!['<'], gt) && inert(seq!['<'], quot) && inert(seq!['<'], amp));
    assert(inert(seq!['>'], quot) && inert(seq!['>'], amp));
    assert(inert(seq!['"'], amp));
    if c != '&' && c != '"' && c != '<' && c != '>' {
        assert(inert(seq![c], lt) && inert(seq![c], gt) && inert(seq![c], quot) && inert(seq![c], amp));
        assert(seq![c] != lt && seq![c] != gt && seq![c] != quot && seq![c] != amp) by {
            assert(seq![c].len() == 1);
        }
    }
}

/// Flattening one-character pieces gives the characters back.
proof fn lemma_flatten_chars(s: Seq<char>)
    ensures
        s.map_values(|c: char| seq![c]).flatten() == s,
    decreases s.len(),
{
    if s.len() > 0 {
        lemma_flatten_chars(s.drop_first());
        assert(s.map_values(|c: char| seq![c]).drop_first() =~= s.drop_first().map_values(|c: char| seq![c]));
        assert(seq![s[0]] + s.drop_first() =~= s);
    } else {
        assert(s.map_values(|c: char| seq![c]) =~= Seq::<Seq<char>>::empty());
    }
}

/// Reading html entities back undoes writing them: unescaping escaped text
/// gives the text back.
pub proof fn lemma_unescape_escape(s: Seq<char>)
    ensures
        unescape_html_spec(escape_html_spec(s)) == s,
{
    reveal_entities();
    let lt = "&lt;"@;
    let gt = "&gt;"@;
    let quot = "&quot;"@;
    let amp = "&amp;"@;
    lemma_escape_pieces(s);
    let ts0 = s.map_values(|c: char| esc_char(c));
    assert forall|i: int| 0 <= i < ts0.len() implies #[trigger] ts0[i] == lt || inert(ts0[i], lt) by {
        lemma_char_stages(s[i]);
    }
    lemma_replace_tokens(ts0, lt, "<"@);
    let ts1 = swap_token(ts0, lt, "<"@);
    assert forall|i: int| 0 <= i < ts1.len() implies #[trigger] ts1[i] == gt || inert(ts1[i], gt) by {
        lemma_char_stages(s[i]);
    }
    lemma_replace_tokens(ts1, gt, ">"@);
    let ts2 = swap_token(ts1, gt, ">"@);
    assert forall|i: int| 0 <= i < ts2.len() implies #[trigger] ts2[i] == quot || inert(ts2[i], quot) by {
        lemma_char_stages(s[i]);
    }
    lemma_replace_tokens(ts2, quot, "\""@);
    let ts3 = swap_token(ts2, quot, "\""@);
    assert forall|i: int| 0 <= i < ts3.len() implies #[trigger] ts3[i] == amp || inert(ts3[i], amp) by {
        lemma_char_stages(s[i]);
    }
    lemma_replace_tokens(ts3, amp, "&"@);
    let ts4 = swap_token(ts3, amp, "&"@);
    assert(ts4 =~= s.map_values(|c: char| seq![c])) by {
        assert forall|i: int| 0 <= i < s.len() implies #[trigger] ts4[i] == seq![s[i]] by {
            lemma_char_stages(s[i]);
        }
    }
    lemma_flatten_chars(s);
}

} // verus!
