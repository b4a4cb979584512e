use tw_lint::json::Json;
use tw_lint::protocol::{Code, Diagnostic, Position, Range, ERROR, HINT, INFORMATION, WARNING};
use tw_lint::report::{can_render, fatal_count, render};
use tw_lint::session::FileDiagnostics;

fn diag(line: u32, sev: i32, msg: &str) -> Diagnostic {
    Diagnostic {
        range: Range::new(Position::new(line, 4), Position::new(line, 10)),
        severity: Some(sev),
        code: None,
        message: msg.to_string(),
        sent: Json::Null,
    }
}

#[test]
fn counts_warning_and_error_as_fatal() {
    let results = vec![FileDiagnostics {
        path: "src/a.rs".into(),
        diagnostics: vec![
            diag(1, ERROR, "bad"),
            diag(2, WARNING, "meh"),
            diag(3, HINT, "fyi"),
        ],
    }];
    assert_eq!(fatal_count(&results), 2);
}

#[test]
fn render_includes_path_and_line() {
    let results = vec![FileDiagnostics {
        path: "src/a.rs".into(),
        diagnostics: vec![diag(0, WARNING, "conflict")],
    }];
    let text = render(&results);
    assert!(text.contains("src/a.rs:1:5"));
    assert!(text.contains("conflict"));
}

#[test]
fn every_diagnostic_of_every_file_is_a_line() {
    let mut unknown = diag(6, ERROR, "odd");
    unknown.severity = None;
    let results = vec![
        FileDiagnostics {
            path: "a".into(),
            diagnostics: vec![diag(0, ERROR, "x"), diag(1, INFORMATION, "y")],
        },
        FileDiagnostics { path: "b".into(), diagnostics: vec![] },
        FileDiagnostics { path: "c".into(), diagnostics: vec![unknown] },
    ];
    assert!(can_render(&results));
    assert_eq!(render(&results), "a:1:5  x\na:2:5  y\nc:7:5  odd\n");
    assert_eq!(fatal_count(&results), 2);
    assert_eq!(fatal_count(&[]), 0);
}

#[test]
fn the_last_line_number_has_no_successor() {
    let results = vec![FileDiagnostics {
        path: "a".into(),
        diagnostics: vec![diag(u32::MAX, HINT, "x")],
    }];
    assert!(!can_render(&results));
}

#[test]
fn a_line_names_the_rule() {
    let mut named = diag(0, ERROR, "x");
    named.code = Some(Code::Name("cssConflict".into()));
    let mut numbered = diag(1, ERROR, "y");
    numbered.code = Some(Code::Number(-12));
    let results = vec![FileDiagnostics { path: "a".into(), diagnostics: vec![named, numbered] }];
    assert_eq!(render(&results), "a:1:5  cssConflict  x\na:2:5  -12  y\n");
}

#[test]
fn fatal_diagnostics_add_up_over_files() {
    let file = |path: &str, diagnostics: Vec<Diagnostic>| FileDiagnostics {
        path: path.into(),
        diagnostics,
    };
    let first = vec![file("a", vec![diag(0, ERROR, "x"), diag(1, HINT, "y")])];
    let second = vec![file("b", vec![diag(0, WARNING, "z")])];
    let both = vec![
        file("a", vec![diag(0, ERROR, "x"), diag(1, HINT, "y")]),
        file("b", vec![diag(0, WARNING, "z")]),
    ];
    assert_eq!(fatal_count(&both), fatal_count(&first) + fatal_count(&second));
}
