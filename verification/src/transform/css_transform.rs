//! Rewriting css class selectors into the attribute selectors of Yomitan's
//! structured content.
//!
//! The css is taken to be valid: a `.` starts a class selector only outside
//! a `{ }` block, so property values such as `.5em` are left alone.

use vstd::prelude::*;

use crate::strs::{char_is_alphanumeric, chars_of, is_unicode_alphanumeric, push_str, string_of};

verus! {

/// Whether `c` may continue a class name.
pub open spec fn is_ident_char(c: char) -> bool {
    is_unicode_alphanumeric(c) || c == '-' || c == '_'
}

/// How many class-name characters `s` starts with.
pub open spec fn ident_len(s: Seq<char>) -> nat
    decreases s.len(),
{
    if s.len() > 0 && is_ident_char(s[0]) {
        1 + ident_len(s.skip(1))
    } else {
        0
    }
}

/// The rewritten text of `s`, read at brace depth `depth`: outside every
/// block, `.name` becomes `[data-sc-class="name"]`; all else is copied.
pub open spec fn rewrite_spec(s: Seq<char>, depth: nat) -> Seq<char>
    decreases s.len(),
{
    if s.len() == 0 {
        Seq::empty()
    } else {
        let c = s[0];
        let rest = s.skip(1);
        if c == '{' {
            seq![c] + rewrite_spec(rest, depth + 1)
        } else if c == '}' {
            seq![c] + rewrite_spec(
                rest,
                if depth > 0 {
                    (depth - 1) as nat
                } else {
                    0
                },
            )
        } else if c == '.' && depth == 0 {
            let n = ident_len(rest);
            if n == 0 {
                seq![c] + rewrite_spec(rest, depth)
            } else {
                proof {
                    lemma_ident_len_bound(rest);
                }
                "[data-sc-class=\""@ + rest.take(n as int) + "\"]"@ + rewrite_spec(
                    rest.skip(n as int),
                    depth,
                )
            }
        } else {
            seq![c] + rewrite_spec(rest, depth)
        }
    }
}

/// `ident_len` counts a run of class-name characters at the start of `s`.
pub proof fn lemma_ident_len_bound(s: Seq<char>)
    ensures
        ident_len(s) <= s.len(),
        forall|k: int| 0 <= k < ident_len(s) ==> is_ident_char(#[trigger] s[k]),
        ident_len(s) < s.len() ==> !is_ident_char(s[ident_len(s) as int]),
    decreases s.len(),
{
    if s.len() > 0 && is_ident_char(s[0]) {
        lemma_ident_len_bound(s.skip(1));
        assert forall|k: int| 0 <= k < ident_len(s) implies is_ident_char(#[trigger] s[k]) by {
            if k > 0 {
                assert(s[k] == s.skip(1)[k - 1]);
            }
        }
        if ident_len(s) < s.len() {
            assert(s[ident_len(s) as int] == s.skip(1)[ident_len(s.skip(1)) as int]);
        }
    }
}

proof fn lemma_ident_len_of_run(s: Seq<char>, n: int)
    requires
        0 <= n <= s.len(),
        forall|k: int| 0 <= k < n ==> is_ident_char(#[trigger] s[k]),
        n < s.len() ==> !is_ident_char(s[n]),
    ensures
        ident_len(s) == n,
    decreases n,
{
    if n > 0 {
        assert forall|k: int| 0 <= k < n - 1 implies is_ident_char(#[trigger] s.skip(1)[k]) by {
            assert(s.skip(1)[k] == s[k + 1]);
        }
        if n < s.len() {
            assert(s.skip(1)[n - 1] == s[n]);
        }
        lemma_ident_len_of_run(s.skip(1), n - 1);
    }
}

/// Outside every block, a `.` followed by a whole run `w` of letters, digits,
/// `-` and `_` (the run ends where `rest` begins) becomes the attribute
/// selector for the class `w`, hyphens and underscores included, and the
/// text after the run is rewritten on its own.
pub proof fn lemma_class_name_is_whole_run(w: Seq<char>, rest: Seq<char>)
    requires
        w.len() > 0,
        forall|k: int|
            0 <= k < w.len() ==> is_unicode_alphanumeric(#[trigger] w[k]) || w[k] == '-' || w[k]
                == '_',
        rest.len() > 0 ==> !(is_unicode_alphanumeric(rest[0]) || rest[0] == '-' || rest[0] == '_'),
    ensures
        rewrite_spec(seq!['.'] + w + rest, 0) == "[data-sc-class=\""@ + w + "\"]"@ + rewrite_spec(
            rest,
            0,
        ),
{
    let s = seq!['.'] + w + rest;
    let after = s.skip(1);
    assert(after =~= w + rest);
    assert forall|k: int| 0 <= k < w.len() implies is_ident_char(#[trigger] after[k]) by {
        assert(after[k] == w[k]);
    }
    if w.len() < after.len() {
        assert(after[w.len() as int] == rest[0]);
    }
    lemma_ident_len_of_run(after, w.len() as int);
    assert(after.take(w.len() as int) =~= w);
    assert(after.skip(w.len() as int) =~= rest);
}

/// Outside every block, text with no `.`, `{` or `}` is copied as it is.
pub proof fn lemma_plain_text_kept(p: Seq<char>, t: Seq<char>)
    requires
        forall|k: int| 0 <= k < p.len() ==> #[trigger] p[k] != '.' && p[k] != '{' && p[k] != '}',
    ensures
        rewrite_spec(p + t, 0) == p + rewrite_spec(t, 0),
    decreases p.len(),
{
    if p.len() > 0 {
        let s = p + t;
        assert(s[0] == p[0]);
        assert(s.skip(1) =~= p.skip(1) + t);
        assert forall|k: int| 0 <= k < p.skip(1).len() implies #[trigger] p.skip(1)[k] != '.'
            && p.skip(1)[k] != '{' && p.skip(1)[k] != '}' by {
            assert(p.skip(1)[k] == p[k + 1]);
        }
        lemma_plain_text_kept(p.skip(1), t);
        assert(p =~= seq![p[0]] + p.skip(1));
    } else {
        assert(p + t =~= t);
    }
}

proof fn lemma_inside_block_copied(body: Seq<char>, t: Seq<char>, depth: nat)
    requires
        depth > 0,
        forall|k: int| 0 <= k < body.len() ==> #[trigger] body[k] != '{' && body[k] != '}',
    ensures
        rewrite_spec(body + t, depth) == body + rewrite_spec(t, depth),
    decreases body.len(),
{
    if body.len() > 0 {
        let s = body + t;
        assert(s[0] == body[0]);
        assert(s.skip(1) =~= body.skip(1) + t);
        assert forall|k: int| 0 <= k < body.skip(1).len() implies #[trigger] body.skip(1)[k] != '{'
            && body.skip(1)[k] != '}' by {
            assert(body.skip(1)[k] == body[k + 1]);
        }
        lemma_inside_block_copied(body.skip(1), t, depth);
        assert(body =~= seq![body[0]] + body.skip(1));
    } else {
        assert(body + t =~= t);
    }
}

/// A block `{ ... }` (with no block inside it) is copied as it is, dots
/// and all: declarations are not selectors.
pub proof fn lemma_block_kept(body: Seq<char>, t: Seq<char>)
    requires
        forall|k: int| 0 <= k < body.len() ==> #[trigger] body[k] != '{' && body[k] != '}',
    ensures
        rewrite_spec(seq!['{'] + body + seq!['}'] + t, 0) == seq!['{'] + body + seq!['}']
            + rewrite_spec(t, 0),
{
    let s = seq!['{'] + body + seq!['}'] + t;
    assert(s[0] == '{');
    assert(s.skip(1) =~= body + (seq!['}'] + t));
    lemma_inside_block_copied(body, seq!['}'] + t, 1);
    let u = seq!['}'] + t;
    assert(u[0] == '}');
    assert(u.skip(1) =~= t);
    assert(rewrite_spec(u, 1) == seq!['}'] + rewrite_spec(t, 0));
    assert(rewrite_spec(s, 0) =~= seq!['{'] + (body + (seq!['}'] + rewrite_spec(t, 0))));
}

/// Rewrites the class selectors of `css` (`span.grammar` becomes
/// `span[data-sc-class="grammar"]`), leaving the declarations inside blocks as
/// they are.
pub fn rewrite_css_classes(css: &str) -> (r: String)
    ensures
        r@ == rewrite_spec(css@, 0),
{
    let cs = chars_of(css);
    let n = cs.len();
    let mut out: Vec<char> = Vec::new();
    let mut depth: usize = 0;
    let mut i: usize = 0;
    assert(cs@.skip(0) =~= cs@);
    while i < n
        invariant
            n == cs@.len(),
            cs@ == css@,
            i <= n,
            depth <= i,
            out@ + rewrite_spec(cs@.skip(i as int), depth as nat) == rewrite_spec(css@, 0),
        decreases n - i,
    {
        let c = cs[i];
        let ghost rest = cs@.skip(i as int);
        assert(rest[0] == c);
        assert(rest.skip(1) =~= cs@.skip(i + 1));
        if c == '{' {
            out.push(c);
            depth = depth + 1;
            i = i + 1;
            assert(out@ + rewrite_spec(cs@.skip(i as int), depth as nat) =~= rewrite_spec(css@, 0));
        } else if c == '}' {
            out.push(c);
            if depth > 0 {
                depth = depth - 1;
            }
            i = i + 1;
            assert(out@ + rewrite_spec(cs@.skip(i as int), depth as nat) =~= rewrite_spec(css@, 0));
        } else if c == '.' && depth == 0 {
            let mut j: usize = i + 1;
            while j < n && (cs[j] == '-' || cs[j] == '_' || char_is_alphanumeric(cs[j]))
                invariant
                    n == cs@.len(),
                    i < j <= n,
                    forall|k: int| i < k < j ==> is_ident_char(#[trigger] cs@[k]),
                decreases n - j,
            {
                j = j + 1;
            }
            let ghost after = cs@.skip(i + 1);
            proof {
                let m = (j - i - 1) as int;
                assert forall|k: int| 0 <= k < m implies is_ident_char(#[trigger] after[k]) by {
                    assert(after[k] == cs@[i + 1 + k]);
                }
                if m < after.len() {
                    assert(after[m] == cs@[j as int]);
                }
                lemma_ident_len_of_run(after, m);
                assert(after.take(m) =~= cs@.subrange(i + 1, j as int));
                assert(after.skip(m) =~= cs@.skip(j as int));
            }
            if j == i + 1 {
                out.push('.');
                i = i + 1;
                assert(out@ + rewrite_spec(cs@.skip(i as int), depth as nat) =~= rewrite_spec(
                    css@,
                    0,
                ));
            } else {
                let ghost before = out@;
                push_str(&mut out, "[data-sc-class=\"");
                let mut k: usize = i + 1;
                while k < j
                    invariant
                        n == cs@.len(),
                        i < k <= j <= n,
                        out@ == before + "[data-sc-class=\""@ + cs@.subrange(i + 1, k as int),
                    decreases j - k,
                {
                    out.push(cs[k]);
                    k = k + 1;
                    assert(out@ =~= before + "[data-sc-class=\""@ + cs@.subrange(i + 1, k as int));
                }
                push_str(&mut out, "\"]");
                i = j;
                assert(out@ + rewrite_spec(cs@.skip(i as int), depth as nat) =~= rewrite_spec(
                    css@,
                    0,
                ));
            }
        } else {
            out.push(c);
            i = i + 1;
            assert(out@ + rewrite_spec(cs@.skip(i as int), depth as nat) =~= rewrite_spec(css@, 0));
        }
    }
    assert(cs@.skip(n as int) =~= Seq::<char>::empty());
    assert(out@ =~= rewrite_spec(css@, 0));
    string_of(&out)
}

} // verus!
