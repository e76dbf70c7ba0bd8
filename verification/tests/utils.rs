use pangloss::utils::{escape_html, parent_dir, unescape_html};

#[test]
fn parent_dir_of_a_bare_filename_is_the_current_dir() {
    assert_eq!(parent_dir("dict.ifo"), ".");
    assert_eq!(parent_dir("./dict.ifo"), ".");
    assert_eq!(parent_dir("a/b/dict.ifo"), "a/b");
    assert_eq!(parent_dir("/dict.ifo"), "/");
}

#[test]
fn escape_html_escapes_the_special_characters() {
    assert_eq!(escape_html(r#"a<b>&"c""#), "a&lt;b&gt;&amp;&quot;c&quot;");
}

#[test]
fn unescape_html_undoes_escape_html() {
    let s = r#"<i>"x" & 'y'</i>"#;
    assert_eq!(unescape_html(&escape_html(s)), s);
}
