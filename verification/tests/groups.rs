use tw_lint::cli::{ClassRegex, LintConfig};
use tw_lint::groups::{GroupMatcher, MatcherError};
use tw_lint::languages::Languages;
use tw_lint::scan::{mask_comments, matching_close};

fn config(class_regexes: Vec<ClassRegex>) -> LintConfig {
    LintConfig {
        root: ".".into(),
        css: "x.css".into(),
        sources: vec![],
        include_languages: Languages::new(),
        class_regexes,
        server_command: "x".into(),
        node: None,
        fix: false,
        resolve: false,
    }
}

fn container(container: &str, class: &str) -> ClassRegex {
    ClassRegex::Container { container: container.into(), class: class.into() }
}

fn matcher() -> GroupMatcher {
    let config = config(vec![container(r"tw!\s*\[", r#""([^"]*)""#)]);
    GroupMatcher::from_config(&config).unwrap_or_else(|_| panic!("a matcher"))
}

#[test]
fn extracts_a_simple_block() {
    let text = "let _ = tw![\"flex\", \"gap-2\"];";
    let groups = matcher().extract("a.rs", text);
    assert_eq!(groups.len(), 1);
    assert_eq!(groups[0].classes, vec!["flex", "gap-2"]);
}

#[test]
fn handles_nested_brackets_inside_a_class() {
    // The class contains `[[role=button]]` and other bracketed values: the
    // scanner must not close the macro on a bracket inside a string.
    let text = "let _ = tw![\n    \"mobile:**:[[role=button]]:touch-manipulation\",\n    \"w-[26cqi]\",\n];";
    let groups = matcher().extract("a.rs", text);
    assert_eq!(groups.len(), 1);
    assert_eq!(
        groups[0].classes,
        vec!["mobile:**:[[role=button]]:touch-manipulation", "w-[26cqi]"]
    );
    // The span must cover the whole list, ending at the real closing `]`.
    assert!(text[groups[0].list_span.clone()].contains("w-[26cqi]"));
}

#[test]
fn ignores_quoted_strings_in_a_line_comment() {
    // The comment inside the block mentions "Backspace" and "Num7" in quotes.
    // Those are prose, not classes, and must not be extracted.
    let text = "let _ = tw![\n    \"mobile:pb-6\",\n    // labels run to \"Backspace\" and \"Num7\", so size off those\n    \"mobile:[--key-slot:13.7cqi]\",\n];";
    let groups = matcher().extract("a.rs", text);
    assert_eq!(groups.len(), 1);
    assert_eq!(
        groups[0].classes,
        vec!["mobile:pb-6", "mobile:[--key-slot:13.7cqi]"]
    );
}

#[test]
fn ignores_brackets_and_quotes_in_a_block_comment() {
    // A comment carrying an unbalanced `]` and a lone `"` must not close the
    // macro early or open a phantom string.
    let text = "let _ = tw![\n    \"flex\",\n    /* danger: a ] and a lone \" live here */\n    \"gap-2\",\n];";
    let groups = matcher().extract("a.rs", text);
    assert_eq!(groups.len(), 1);
    assert_eq!(groups[0].classes, vec!["flex", "gap-2"]);
}

#[test]
fn a_commented_out_opener_starts_no_block() {
    let text = "// let _ = tw![\"ghost\"];\nlet _ = tw![\"flex\"];";
    let groups = matcher().extract("a.rs", text);
    assert_eq!(groups.len(), 1);
    assert_eq!(groups[0].classes, vec!["flex"]);
}

#[test]
fn finds_multiple_blocks() {
    let text = "a: tw![\"flex\"], b: tw![\"grid\", \"[&_x]:block\"]";
    let groups = matcher().extract("a.rs", text);
    assert_eq!(groups.len(), 2);
    assert_eq!(groups[0].classes, vec!["flex"]);
    assert_eq!(groups[1].classes, vec!["grid", "[&_x]:block"]);
}

#[test]
fn a_block_knows_its_file_line_and_span() {
    let text = "fn f() {\n  tw! [\"a\"]\n}\n";
    let groups = matcher().extract("src/b.rs", text);
    assert_eq!(groups.len(), 1);
    assert_eq!(groups[0].file, "src/b.rs");
    assert_eq!(groups[0].line, 2);
    assert_eq!(groups[0].list_span, 16..19);
    assert_eq!(&text[groups[0].list_span.clone()], "\"a\"");
}

#[test]
fn a_block_without_classes_or_without_an_end_is_none() {
    assert!(matcher().extract("a.rs", "tw![]").is_empty());
    assert!(matcher().extract("a.rs", "tw![\"flex\"").is_empty());
    assert!(matcher().extract("a.rs", "").is_empty());
}

#[test]
fn a_matcher_needs_a_container() {
    let config = config(vec![ClassRegex::Simple("x".into())]);
    let error = GroupMatcher::from_config(&config).err().unwrap();
    assert!(matches!(error, MatcherError::NoContainer));
    assert_eq!(error.message(), "--class-container is required (with a --class-regex)");
}

#[test]
fn bad_patterns_are_refused() {
    let bad = config(vec![container("(", "x")]);
    let error = GroupMatcher::from_config(&bad).err().unwrap();
    assert!(matches!(error, MatcherError::BadContainer(_)));
    assert!(error.message().starts_with("invalid --class-container regex: "));
    assert!(error.message().contains("unclosed group"));
    let bad = config(vec![container("x", "[")]);
    let error = GroupMatcher::from_config(&bad).err().unwrap();
    assert!(matches!(error, MatcherError::BadClass(_)));
    assert!(error.message().starts_with("invalid --class-regex: "));
}

#[test]
fn the_first_container_counts() {
    let config = config(vec![
        ClassRegex::Simple("z".into()),
        container("a<", "'([^']*)'"),
        container("b<", "x"),
    ]);
    let matcher = GroupMatcher::from_config(&config).unwrap_or_else(|_| panic!("a matcher"));
    let groups = matcher.extract("a", "a<'one' 'two'] b<x]");
    assert_eq!(groups.len(), 1);
    assert_eq!(groups[0].classes, vec!["one", "two"]);
}

#[test]
fn masking_keeps_offsets_and_lines() {
    let text = "a // é \"x\"\nb /* ]\n\" */ \"// no\" 'c'";
    let mask = mask_comments(text);
    assert_eq!(mask.len(), text.len());
    assert_eq!(mask, "a          \nb     \n     \"// no\" 'c'");
    assert_eq!(mask_comments(&mask), mask);
}

#[test]
fn a_list_ends_at_its_own_bracket() {
    assert_eq!(matching_close("a [b] \"]\" c] d", 0), Some(11));
    assert_eq!(matching_close("\"\\\"]\" ]", 0), Some(6));
    assert_eq!(matching_close("[ ]", 0), None);
    assert_eq!(matching_close("]", 0), Some(0));
}

#[test]
fn a_quote_in_a_character_begins_no_string() {
    assert_eq!(mask_comments("'\"' // x\n"), "'\"'     \n");
    assert_eq!(mask_comments("b'\"' /* x */ 1"), "b'\"'         1");
    assert_eq!(mask_comments(r"'\'' // x"), r"'\''     ");
    assert_eq!(mask_comments("'é' // \"x"), "'é'      ");
    let groups = matcher().extract("a.rs", "let q = '\"'; // \"no\"\ntw![\"flex\"]");
    assert_eq!(groups.len(), 1);
    assert_eq!(groups[0].classes, vec!["flex"]);
}

#[test]
fn a_lifetime_begins_no_character() {
    assert_eq!(mask_comments("&'a str // x"), "&'a str     ");
    assert_eq!(mask_comments("'a: loop {} // 'b'"), "'a: loop {}       ");
}

#[test]
fn a_backslash_in_a_raw_string_escapes_nothing() {
    assert_eq!(mask_comments(r#"r"\" // x"#), r#"r"\"     "#);
    assert_eq!(mask_comments("r#\"a\" // b\"# // x"), "r#\"a\" // b\"#     ");
    assert_eq!(mask_comments("br##\"\"#//\"## // x"), "br##\"\"#//\"##     ");
    assert_eq!(mask_comments("r#x // \""), "r#x     ");
    // A word that ends in `r` is no prefix.
    assert_eq!(mask_comments(r#"bar"\" // x""#), r#"bar"\" // x""#);
}

#[test]
fn brackets_in_literals_close_nothing() {
    assert_eq!(matching_close("']' ]", 0), Some(4));
    assert_eq!(matching_close("'[' ]", 0), Some(4));
    assert_eq!(matching_close(r#"r"\" ] "]"#, 0), Some(5));
    assert_eq!(matching_close("r#\"\"]\"# ]", 0), Some(8));
}

#[test]
fn white_space_before_the_bracket_may_be_any() {
    let groups = matcher().extract("a.rs", "tw!\u{3000}\n\t[\"a\"] tw! x [\"b\"] ttw![\"\", \"c\"]");
    assert_eq!(groups.len(), 2);
    assert_eq!(groups[0].list_span, 9..12);
    assert_eq!(groups[0].classes, vec!["a"]);
    assert_eq!(groups[1].classes, vec!["", "c"]);
}

#[test]
fn a_quote_without_its_partner_opens_nothing() {
    assert_eq!(mask_comments("'\\n // c"), "'\\n     ");
    assert_eq!(mask_comments("'\\' // c"), "'\\'     ");
    assert_eq!(mask_comments("'\\\n// c"), "'\\\n    ");
    assert_eq!(mask_comments("'\\u{41 // c'"), "'\\u{41      ");
    assert_eq!(mask_comments("'\\x4 // c'"), "'\\x4      ");
    assert_eq!(mask_comments("'\\// c'"), "'\\     ");
    assert_eq!(matching_close("'\\a ]", 0), Some(4));
    assert_eq!(matching_close("'\\u{]}' ]", 0), Some(4));
    assert_eq!(matching_close("[']]", 0), Some(3));
}

#[test]
fn every_escape_of_a_character_ends_with_it() {
    for escape in ["n", "'", "\\", "\"", "/", "x7f", "u{1F_600}", "u{0}"] {
        let text = format!("'\\{escape}' // \"");
        let masked = format!("'\\{escape}'     ");
        assert_eq!(mask_comments(&text), masked);
        assert_eq!(matching_close(&format!("'\\{escape}' ]"), 0), Some(escape.len() + 4));
    }
}

#[test]
fn every_line_comment_is_masked() {
    let text = "a // b\n'/' /// c 'd\n'//'\n'\\/' e//\nf / / g";
    let mask = mask_comments(text);
    let expected: Vec<String> = text
        .split('\n')
        .map(|line| match line.find("//") {
            Some(at) => format!("{}{}", &line[..at], " ".repeat(line.len() - at)),
            None => line.to_string(),
        })
        .collect();
    assert_eq!(mask, expected.join("\n"));
}
