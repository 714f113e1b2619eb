use promptml::{parse_markup, PromptFragment, PromptTemplate};

#[test]
fn it_works() {
    assert_eq!(
        parse_markup("\\[hello\\]"),
        vec![PromptFragment::string("[hello]")]
    );
    assert_eq!(parse_markup("\\\\"), vec![PromptFragment::string("\\")]);
    assert_eq!(
        parse_markup("[hello]"),
        vec![PromptFragment::control(("hello", None))]
    );
    assert_eq!(parse_markup("hello"), vec![PromptFragment::string("hello")]);
    assert_eq!(
        parse_markup("hello[hello]"),
        vec![
            PromptFragment::string("hello"),
            PromptFragment::control(("hello", None))
        ]
    );
}

#[test]
fn empty_input_gives_no_fragments() {
    assert_eq!(parse_markup(""), vec![]);
}

#[test]
fn plain_and_control_boundary() {
    let frags = parse_markup("hello[hello]");
    assert_eq!(frags.len(), 2);
    assert_eq!(frags[0].string, "hello");
    assert_eq!(frags[0].options, None);
    assert_eq!(frags[1].string, "hello");
    assert_eq!(frags[1].options, Some(vec![]));
}

#[test]
fn options_dedup_mixed_separators() {
    let frags = parse_markup("[x|a,b,a#c]");
    assert_eq!(frags.len(), 1);
    assert_eq!(frags[0].string, "x");
    assert_eq!(
        frags[0].options,
        Some(vec!["a".to_string(), "b".to_string(), "c".to_string()])
    );
}

#[test]
fn separator_runs_count_as_one() {
    let frags = parse_markup("[x|a#,#b]");
    assert_eq!(frags.len(), 1);
    assert_eq!(frags[0].string, "x");
    assert_eq!(
        frags[0].options,
        Some(vec!["a".to_string(), "b".to_string()])
    );
}

#[test]
fn escapes_merge_with_literal_text() {
    // Escapes and literal runs fold into a single plain fragment.
    let frags = parse_markup("ab\\[cd");
    assert_eq!(frags.len(), 1);
    assert_eq!(frags[0].string, "ab[cd");
    assert_eq!(frags[0].options, None);
}

#[test]
fn control_never_merges_with_neighbours() {
    let frags = parse_markup("a[x]b");
    assert_eq!(frags.len(), 3);
    assert_eq!(frags[0].string, "a");
    assert_eq!(frags[0].options, None);
    assert_eq!(frags[1].string, "x");
    assert_eq!(frags[1].options, Some(vec![]));
    assert_eq!(frags[2].string, "b");
    assert_eq!(frags[2].options, None);
}

#[test]
fn adjacent_controls_stay_separate() {
    let frags = parse_markup("[x][y]");
    assert_eq!(frags.len(), 2);
    assert_eq!(frags[0].string, "x");
    assert_eq!(frags[1].string, "y");
}

#[test]
fn unclosed_control_is_silently_dropped() {
    assert_eq!(
        parse_markup("abc[unclosed"),
        vec![PromptFragment::string("abc")]
    );
}

#[test]
fn dangling_backslash_truncates() {
    let frags = parse_markup("abc\\x");
    assert_eq!(frags.len(), 1);
    assert_eq!(frags[0].string, "abc");
}

#[test]
fn malformed_option_lists_truncate() {
    assert_eq!(parse_markup("[x|]"), vec![]);
    assert_eq!(parse_markup("[x|a,]"), vec![]);
    assert_eq!(parse_markup("[|a]"), vec![]);
    assert_eq!(parse_markup("[]"), vec![]);
}

#[test]
fn control_names_may_hold_unusual_characters() {
    // Only `[`, `]`, `|`, `#` and `,` end a name; spaces and backslashes
    // are ordinary name characters.
    let frags = parse_markup("[a b\\c]");
    assert_eq!(frags.len(), 1);
    assert_eq!(frags[0].string, "a b\\c");
    assert_eq!(frags[0].options, Some(vec![]));
}

#[test]
fn unicode_text_is_preserved() {
    let frags = parse_markup("héllo wörld [nämé|ö,ä]");
    assert_eq!(frags.len(), 2);
    assert_eq!(frags[0].string, "héllo wörld ");
    assert_eq!(frags[0].options, None);
    assert_eq!(frags[1].string, "nämé");
    assert_eq!(
        frags[1].options,
        Some(vec!["ö".to_string(), "ä".to_string()])
    );
}

#[test]
fn fragment_display_renders_canonical_form() {
    assert_eq!(PromptFragment::string("hi").display(), "hi");
    assert_eq!(PromptFragment::control(("x", None)).display(), "[x]");
    assert_eq!(
        PromptFragment::control(("x", Some(vec!["a", "b"]))).display(),
        "[x|a,b]"
    );
}

#[test]
fn fragment_char_holds_one_character() {
    assert_eq!(PromptFragment::char('[').display(), "[");
    assert_eq!(PromptFragment::char('x').display(), "x");
}

#[test]
fn fragment_equality_is_by_rendering() {
    // A plain fragment that happens to hold "[hello]" renders exactly like
    // the control fragment named "hello", so the two compare equal.
    assert_eq!(
        PromptFragment::string("[hello]"),
        PromptFragment::control(("hello", None))
    );
    assert_ne!(
        PromptFragment::string("hello"),
        PromptFragment::control(("hello", None))
    );
}

#[test]
fn template_renders_fragments_in_order() {
    let t = PromptTemplate::new(Some("hello [name|greeting,formal]!"));
    assert_eq!(t.len(), 3);
    assert_eq!(t.display(), "hello [name|greeting,formal]!");
}

#[test]
fn template_render_collapses_escapes() {
    // Redundant escapes collapse: the rendered form of a parse is not
    // byte-identical to the source, only equivalent under re-parsing.
    let t = PromptTemplate::new(Some("\\[hello\\]"));
    assert_eq!(t.display(), "[hello]");
}

#[test]
fn template_reparse_is_stable_for_clean_text() {
    let source = "hello [name|greeting,formal] and [x|a,b,a#c]!";
    let first = parse_markup(source);
    let rendered = PromptTemplate { fragments: first.clone() }.display();
    let second = parse_markup(&rendered);
    assert_eq!(first, second);
    assert_eq!(rendered, PromptTemplate { fragments: second }.display());
}

#[test]
fn reparse_differs_when_plain_text_holds_markup() {
    // Rendering does not re-escape plain text, so a plain fragment that
    // holds markup characters re-parses differently: round-trip stability
    // is only promised for plain text free of `\`, `[` and `]`.
    let first = parse_markup("\\[hello\\]");
    assert_eq!(first.len(), 1);
    assert_eq!(first[0].options, None);
    let rendered = PromptTemplate { fragments: first }.display();
    assert_eq!(rendered, "[hello]");
    let second = parse_markup(&rendered);
    assert_eq!(second.len(), 1);
    assert_eq!(second[0].options, Some(vec![]));
}

#[test]
fn template_new_without_source_is_empty() {
    let t = PromptTemplate::new(None);
    assert_eq!(t.len(), 0);
    assert_eq!(t.display(), "");
}

#[test]
fn template_get_returns_each_fragment() {
    let t = PromptTemplate::new(Some("a[x]"));
    assert_eq!(t.get(0).string, "a");
    assert_eq!(t.get(1).string, "x");
}

#[test]
fn template_parse_matches_parse_markup() {
    assert_eq!(
        PromptTemplate::parse("a[x]"),
        parse_markup("a[x]")
    );
    assert_eq!(PromptFragment::parse("a[x]"), parse_markup("a[x]"));
}

#[test]
fn template_equality_is_by_rendering() {
    let a = PromptTemplate::new(Some("\\[hello\\]"));
    let b = PromptTemplate::new(Some("[hello]"));
    // Both render to "[hello]".
    assert_eq!(a, b);
    let c = PromptTemplate::new(Some("hello"));
    assert_ne!(a, c);
}

#[test]
fn constructor_dedup_keeps_first_occurrence() {
    let f = PromptFragment::control(("x", Some(vec!["b", "a", "b"])));
    assert_eq!(f.options, Some(vec!["b".to_string(), "a".to_string()]));
    assert_eq!(f.display(), "[x|b,a]");
}

#[test]
fn new_builds_raw_fields() {
    let f = PromptFragment::new(Some("abc"), None);
    assert_eq!(f.string, "abc");
    assert_eq!(f.options, None);
    let g = PromptFragment::new(None, Some(vec!["a".to_string()]));
    assert_eq!(g.string, "");
    assert_eq!(g.options, Some(vec!["a".to_string()]));
}
