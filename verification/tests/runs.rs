use tw_lint::check::CheckRun;
use tw_lint::cli::{ClassRegex, LintConfig};
use tw_lint::fix::{FixRun, Rewrite};
use tw_lint::groups::GroupMatcher;
use tw_lint::json::Json;
use tw_lint::languages::Languages;
use tw_lint::palette::Palette;
use tw_lint::protocol::{Code, Diagnostic, Position, Range, HINT, WARNING};
use tw_lint::resolve::{ResolveRun, Talk};
use tw_lint::sweep::{Step, CHUNK_SIZE};

fn matcher() -> GroupMatcher {
    let config = LintConfig {
        root: "/p".into(),
        css: "x.css".into(),
        sources: vec![],
        include_languages: Languages::new(),
        class_regexes: vec![ClassRegex::Container {
            container: r"tw!\s*\[".into(),
            class: r#""([^"]*)""#.into(),
        }],
        server_command: "x".into(),
        node: None,
        fix: false,
        resolve: false,
    };
    GroupMatcher::from_config(&config).unwrap_or_else(|_| panic!("a matcher"))
}

fn plain() -> Palette {
    Palette::detect(true, true, true, true)
}

fn at(line: u32, start: u32, end: u32, message: &str) -> Diagnostic {
    Diagnostic {
        range: Range::new(Position::new(line, start), Position::new(line, end)),
        severity: Some(WARNING),
        code: Some(Code::Name("cssConflict".into())),
        message: message.into(),
        sent: Json::Null,
    }
}

fn canonical(line: u32, start: u32, end: u32, message: &str) -> Diagnostic {
    let mut diagnostic = at(line, start, end, message);
    diagnostic.code = Some(Code::Name("suggestCanonicalClasses".into()));
    diagnostic
}

fn document(step: Step) -> String {
    match step {
        Step::Diagnose(text) => text,
        other => panic!("expected a document, got {other:?}"),
    }
}

const WIDTH: &str = "The class `w-[100%]` can be written as `w-full`";
const ONE_WAY: &str = "'flex' applies the same CSS properties as 'block'.";
const OTHER_WAY: &str = "'block' applies the same CSS properties as 'flex'.";

#[test]
fn a_check_reports_each_file_once_and_each_conflict_once() {
    let mut run = CheckRun::new(matcher(), "/p".to_string(), plain());
    let step = run.on_source("/p/src/a.rs", "tw![\"flex\", \"block\"]\ntw![\"w-[100%]\"]");
    assert!(matches!(step, Step::NextSource));
    let step = run.on_source("/p/b.rs", "no blocks");
    assert!(matches!(step, Step::NextSource));
    let step = run.on_source("/p/b.rs", "\ntw![\"flex\", \"block\"]");
    assert!(matches!(step, Step::NextSource));
    let text = document(run.on_sources_end());
    assert_eq!(
        text,
        "<div class=\"flex block\"></div>\n<div class=\"w-[100%]\"></div>\n<div class=\"flex block\"></div>"
    );
    let mut hint = at(0, 0, 0, "a hint");
    hint.severity = Some(HINT);
    let diagnostics = vec![
        at(2, 12, 16, ONE_WAY),
        canonical(1, 12, 20, WIDTH),
        at(0, 17, 22, OTHER_WAY),
        at(0, 12, 16, ONE_WAY),
        at(9, 0, 0, ONE_WAY),
        at(0, 0, 0, "nothing quoted"),
        hint,
    ];
    let (out, step) = run.on_diagnostics(&diagnostics);
    assert!(matches!(step, Step::Close));
    assert_eq!(
        out,
        "\nsrc/a.rs\n  error  1  nothing quoted\n  note  1  a hint\n  conflict  1  flex  ⟷  block\n  fix  2  The class `w-[100%]` can be written as `w-full`\n\nb.rs\n  conflict  2  flex  ⟷  block\n"
    );
    let (summary, issues) = run.finish().unwrap();
    assert_eq!(summary, "\n4 issues  1 fixable  3 conflicts\n");
    assert_eq!(issues, 4);
}

#[test]
fn a_clean_check_says_so_in_bold() {
    let palette = Palette::detect(false, false, false, true);
    let mut run = CheckRun::new(matcher(), "/p".to_string(), palette);
    run.on_source("/p/a.rs", "tw![\"flex\"]");
    document(run.on_sources_end());
    let (out, _) = run.on_diagnostics(&vec![]);
    assert_eq!(out, "");
    let (summary, issues) = run.finish().unwrap();
    assert_eq!(summary, "\n\x1b[1m✓ clean\x1b[0m\n");
    assert_eq!(issues, 0);
}

#[test]
fn nothing_is_clean_without_blocks() {
    let mut run = CheckRun::new(matcher(), "/p".to_string(), plain());
    run.on_source("/p/a.rs", "nothing");
    assert!(matches!(run.on_sources_end(), Step::Close));
    let error = run.finish().unwrap_err();
    assert!(error.message().starts_with("no class blocks matched --class-container"));
    let fix = FixRun::new(matcher(), "/p".to_string(), plain());
    assert!(fix.ensure_matched().is_err());
    let resolve = ResolveRun::new(matcher(), "/p".to_string(), plain());
    assert!(resolve.ensure_matched().is_err());
}

#[test]
fn blocks_are_handed_out_in_chunks() {
    let mut source = String::new();
    for _ in 0..CHUNK_SIZE + 1 {
        source.push_str("tw![\"a\"]");
    }
    let mut run = CheckRun::new(matcher(), "/p".to_string(), plain());
    let first = document(run.on_source("/p/a.rs", &source));
    assert_eq!(first.lines().count(), CHUNK_SIZE);
    let (_, step) = run.on_diagnostics(&vec![]);
    assert!(matches!(step, Step::NextSource));
    let last = document(run.on_sources_end());
    assert_eq!(last, "<div class=\"a\"></div>");
    let (_, step) = run.on_diagnostics(&vec![]);
    assert!(matches!(step, Step::Close));
}

fn fix(text: &str, diagnostics: Vec<Diagnostic>) -> (String, Rewrite, String) {
    let mut run = FixRun::new(matcher(), "/p".to_string(), plain());
    run.on_source("/p/a.rs", text);
    document(run.on_sources_end());
    let (out, step) = run.on_diagnostics(&diagnostics);
    assert!(matches!(step, Step::Close));
    assert!(run.ensure_matched().is_ok());
    let rewrite = run.rewrite_source("/p/a.rs", text);
    (out, rewrite, run.finish())
}

#[test]
fn a_fix_rewrites_the_list_and_nothing_else() {
    let text = "  a: tw![\"w-[100%]\", \"p-1\", \"w-full\"], b: 1\n";
    let diagnostics = vec![canonical(0, 12, 20, WIDTH), at(0, 21, 24, ONE_WAY)];
    let (out, rewrite, summary) = fix(text, diagnostics);
    assert_eq!(out, "\na.rs\n  fix 1  The class `w-[100%]` can be written as `w-full`\n");
    match rewrite {
        Rewrite::Write(after) => assert_eq!(
            after,
            "  a: tw![\n      \"w-full\",\n      \"p-1\",\n  ], b: 1\n"
        ),
        other => panic!("expected a rewrite, got {other:?}"),
    }
    assert_eq!(summary, "\n✓ 1 fixed  0 reformatted  1 conflicts left\n");
}

#[test]
fn each_suggestion_reaches_its_class() {
    let text = "tw![\"w-[100%]\", \"p-1\", \"h-[100%]\"]";
    let diagnostics = vec![
        canonical(0, 25, 33, "The class `h-[100%]` can be written as `h-full`"),
        canonical(0, 12, 20, WIDTH),
    ];
    let (_, rewrite, summary) = fix(text, diagnostics);
    match rewrite {
        Rewrite::Write(after) => {
            assert_eq!(after, "tw![\n    \"w-full\",\n    \"p-1\",\n    \"h-full\",\n]")
        }
        other => panic!("expected a rewrite, got {other:?}"),
    }
    assert_eq!(summary, "\n✓ 2 fixed  0 reformatted  0 conflicts left\n");
}

#[test]
fn a_fixed_source_is_kept() {
    let text = "  a: tw![\n      \"w-full\",\n      \"p-1\",\n  ], b: 1\n";
    let (out, rewrite, summary) = fix(text, vec![]);
    assert_eq!(out, "");
    assert!(matches!(rewrite, Rewrite::Keep));
    assert_eq!(summary, "\n✓ 0 fixed  0 reformatted  0 conflicts left\n");
}

#[test]
fn a_list_with_a_repeat_is_reformatted() {
    let (_, rewrite, summary) = fix("tw![\"a\"] tw![\"b\", \"b\"]", vec![]);
    match rewrite {
        Rewrite::Write(after) => assert_eq!(after, "tw![\"a\"] tw![\n    \"b\",\n]"),
        other => panic!("expected a rewrite, got {other:?}"),
    }
    assert_eq!(summary, "\n✓ 0 fixed  1 reformatted  0 conflicts left\n");
}

#[test]
fn an_unflagged_block_keeps_its_shape_and_its_comments() {
    let text = "tw![\"a\", // why\n  \"b\"] tw![ \"c\" ]";
    let (out, rewrite, summary) = fix(text, vec![]);
    assert_eq!(out, "");
    assert!(matches!(rewrite, Rewrite::Keep));
    assert_eq!(summary, "\n✓ 0 fixed  0 reformatted  0 conflicts left\n");
}

#[test]
fn a_written_block_is_read_back_and_kept() {
    let (_, rewrite, _) = fix("\ttw![\"w-[100%]\", \"p-1\"]", vec![canonical(0, 12, 20, WIDTH)]);
    let after = match rewrite {
        Rewrite::Write(after) => after,
        other => panic!("expected a rewrite, got {other:?}"),
    };
    assert_eq!(after, "\ttw![\n\t    \"w-full\",\n\t    \"p-1\",\n\t]");
    let groups = matcher().extract("/p/a.rs", &after);
    assert_eq!(groups.len(), 1);
    assert_eq!(groups[0].classes, vec!["w-full", "p-1"]);
    assert_eq!((groups[0].line, groups[0].list_span.clone()), (1, 5..after.len() - 1));
    let (_, rewrite, _) = fix(&after, vec![]);
    assert!(matches!(rewrite, Rewrite::Keep));
}

#[test]
fn a_suggestion_without_a_replacement_changes_no_class() {
    let (out, rewrite, summary) = fix("tw![\n    \"a\",\n]", vec![canonical(0, 12, 13, "shorten")]);
    assert_eq!(out, "");
    assert!(matches!(rewrite, Rewrite::Keep));
    assert_eq!(summary, "\n✓ 0 fixed  0 reformatted  0 conflicts left\n");
}

#[test]
fn a_list_that_starts_inside_a_character_does_not_fit() {
    let config = LintConfig {
        root: "/p".into(),
        css: "x.css".into(),
        sources: vec![],
        include_languages: Languages::new(),
        class_regexes: vec![ClassRegex::Container {
            container: r"tw!\[   ".into(),
            class: r#""([^"]*)""#.into(),
        }],
        server_command: "x".into(),
        node: None,
        fix: false,
        resolve: false,
    };
    let matcher = GroupMatcher::from_config(&config).unwrap_or_else(|_| panic!("a matcher"));
    let mut run = FixRun::new(matcher, "/p".to_string(), plain());
    let text = "tw![//é\n\"a\"]";
    assert!(matches!(run.rewrite_source("/p/a.rs", text), Rewrite::Misfit));
}

fn resolution(text: &str, diagnostics: Vec<Diagnostic>) -> ResolveRun {
    let mut run = ResolveRun::new(matcher(), "/p".to_string(), plain());
    run.on_source("/p/a.rs", text);
    document(run.on_sources_end());
    assert!(matches!(run.on_diagnostics(&diagnostics), Step::Close));
    assert!(run.ensure_matched().is_ok());
    run
}

fn asked(talk: Talk) -> String {
    match talk {
        Talk::Ask(text) => text,
        other => panic!("expected a question, got {other:?}"),
    }
}

fn line(text: &str) -> Option<String> {
    Some(text.to_string())
}

const TRIO: &str = "tw![\"flex\", \"block\", \"grid\"]";

fn trio() -> Vec<Diagnostic> {
    vec![
        at(0, 0, 0, "'grid' conflicts with 'flex'"),
        at(0, 0, 0, ONE_WAY),
        at(0, 0, 0, OTHER_WAY),
        at(0, 0, 0, "'block' conflicts with 'grid'"),
        at(3, 0, 0, ONE_WAY),
        canonical(0, 0, 0, ONE_WAY),
    ]
}

#[test]
fn a_choice_removes_the_other_class() {
    let mut run = resolution(TRIO, trio());
    let question = asked(run.ask_source("/p/a.rs", TRIO));
    assert_eq!(question, "a.rs:1\n    1  flex\n    2  grid\n  keep [1/2/s/q]: ");
    assert_eq!(asked(run.on_line(&line("what?\n"))), "  keep [1/2/s/q]: ");
    let question = asked(run.on_line(&line(" 1 \n")));
    assert_eq!(question, "\na.rs:1\n    1  block\n    2  flex\n  keep [1/2/s/q]: ");
    // With `block` gone, its conflict with `grid` needs no answer.
    match run.on_line(&line("2")) {
        Talk::Done(text, Rewrite::Write(after)) => {
            assert_eq!(text, "\n");
            assert_eq!(after, "tw![\n    \"flex\",\n]");
        }
        other => panic!("expected a rewrite, got {other:?}"),
    }
    assert_eq!(run.finish(), "\n✓ removed 2 class(es) across your choices\n");
}

#[test]
fn a_choice_reaches_into_a_literal() {
    let text = "tw![\"block flex\", \"p-1\"]";
    let mut run = resolution(text, vec![at(0, 0, 0, ONE_WAY)]);
    let question = asked(run.ask_source("/p/a.rs", text));
    assert_eq!(question, "a.rs:1\n    1  block\n    2  flex\n  keep [1/2/s/q]: ");
    match run.on_line(&line("1\n")) {
        Talk::Done(_, Rewrite::Write(after)) => {
            assert_eq!(after, "tw![\n    \"block\",\n    \"p-1\",\n]")
        }
        other => panic!("expected a rewrite, got {other:?}"),
    }
    assert_eq!(run.finish(), "\n✓ removed 1 class(es) across your choices\n");
}

#[test]
fn without_a_choice_nothing_changes() {
    let mut run = resolution(TRIO, trio());
    asked(run.ask_source("/p/a.rs", TRIO));
    asked(run.on_line(&line("s\n")));
    asked(run.on_line(&line("\n")));
    match run.on_line(&None) {
        Talk::Done(text, Rewrite::Keep) => assert_eq!(text, "\n"),
        other => panic!("expected an end, got {other:?}"),
    }
    assert_eq!(run.finish(), "✓ no conflicts resolved\n");
}

#[test]
fn quitting_keeps_the_choices_and_ends_the_questions() {
    let text = "tw![\"flex\", \"block\", \"grid\"] tw![\"flex\", \"block\"]";
    let mut diagnostics = trio();
    diagnostics.push(at(1, 0, 0, ONE_WAY));
    let mut run = resolution(text, diagnostics);
    asked(run.ask_source("/p/a.rs", text));
    asked(run.on_line(&line("2\n")));
    match run.on_line(&line("q\n")) {
        Talk::Done(shown, Rewrite::Write(after)) => {
            assert_eq!(shown, "\n");
            assert_eq!(
                after,
                "tw![\n    \"block\",\n    \"grid\",\n] tw![\"flex\", \"block\"]"
            );
        }
        other => panic!("expected a rewrite, got {other:?}"),
    }
    match run.ask_source("/p/b.rs", TRIO) {
        Talk::Done(shown, Rewrite::Keep) => assert_eq!(shown, ""),
        other => panic!("expected an end, got {other:?}"),
    }
    assert_eq!(run.finish(), "\n✓ removed 1 class(es) across your choices\n");
}

#[test]
fn a_source_without_conflicts_asks_nothing() {
    let mut run = resolution(TRIO, vec![]);
    match run.ask_source("/p/a.rs", TRIO) {
        Talk::Done(shown, Rewrite::Keep) => assert_eq!(shown, ""),
        other => panic!("expected an end, got {other:?}"),
    }
    match run.on_line(&line("1")) {
        Talk::Done(shown, Rewrite::Keep) => assert_eq!(shown, ""),
        other => panic!("expected an end, got {other:?}"),
    }
}

#[test]
fn nothing_is_rewritten_before_every_block_is_diagnosed() {
    let text = "tw![\"a\", \"a\"]";
    let mut run = FixRun::new(matcher(), "/p".to_string(), plain());
    assert!(run.rewrite_diagnosed("/p/a.rs", text).is_none());
    run.on_source("/p/a.rs", text);
    assert!(run.rewrite_diagnosed("/p/a.rs", text).is_none());
    document(run.on_sources_end());
    assert!(run.rewrite_diagnosed("/p/a.rs", text).is_none());
    let (_, step) = run.on_diagnostics(&vec![]);
    assert!(matches!(step, Step::Close));
    match run.rewrite_diagnosed("/p/a.rs", text) {
        Some(Rewrite::Write(after)) => assert_eq!(after, "tw![\n    \"a\",\n]"),
        other => panic!("expected a rewrite, got {other:?}"),
    }
    let mut run = FixRun::new(matcher(), "/p".to_string(), plain());
    assert!(matches!(run.on_sources_end(), Step::Close));
    assert!(run.rewrite_diagnosed("/p/a.rs", text).is_none());
}

#[test]
fn nothing_is_asked_before_every_block_is_diagnosed() {
    let mut run = ResolveRun::new(matcher(), "/p".to_string(), plain());
    run.on_source("/p/a.rs", TRIO);
    assert!(run.ask_diagnosed("/p/a.rs", TRIO).is_none());
    document(run.on_sources_end());
    assert!(run.ask_diagnosed("/p/a.rs", TRIO).is_none());
    run.on_diagnostics(&trio());
    let question = asked(run.ask_diagnosed("/p/a.rs", TRIO).unwrap());
    assert_eq!(question, "a.rs:1\n    1  flex\n    2  grid\n  keep [1/2/s/q]: ");
}
