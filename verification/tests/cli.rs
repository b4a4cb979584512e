use tw_lint::cli::{ClassRegex, CliArgs, ConfigError, FileConfig, LintConfig};

fn args() -> CliArgs {
    CliArgs {
        config: None,
        root: Some("/proj".into()),
        css: Some("tw.css".into()),
        source: vec!["src/**/*.rs".into()],
        include_lang: vec!["rust=html".into()],
        class_regex: vec![r#"tw!\s*\[([^\]]*)\]"#.into(), r#""([^"]*)""#.into()],
        server: None,
        node: None,
        fix: false,
    }
}

fn resolve(args: CliArgs) -> Result<LintConfig, ConfigError> {
    LintConfig::resolve(args, FileConfig::default(), None)
}

#[test]
fn flags_only_resolve_without_a_config_file() {
    let resolved = resolve(args()).unwrap();
    assert_eq!(resolved.css, "tw.css");
    assert_eq!(resolved.sources, vec!["src/**/*.rs".to_string()]);
    assert_eq!(resolved.include_languages.get("rust").unwrap(), "html");
    assert_eq!(resolved.class_regexes.len(), 2);
    assert!(!resolved.fix);
}

#[test]
fn server_defaults_but_flags_override_node_and_server() {
    let default = resolve(args()).unwrap();
    assert_eq!(default.server_command, "tailwindcss-language-server");
    assert!(default.node.is_none());

    let mut a = args();
    a.server = Some("/opt/my-tw-ls/server.js".into());
    a.node = Some("/opt/node20/bin/node".into());
    let overridden = resolve(a).unwrap();
    assert_eq!(overridden.server_command, "/opt/my-tw-ls/server.js");
    assert_eq!(overridden.node.unwrap(), "/opt/node20/bin/node");
}

#[test]
fn include_lang_without_equation_is_an_error() {
    let mut a = args();
    a.include_lang = vec!["rust".into()];
    assert!(resolve(a).is_err());
}

#[test]
fn a_bad_language_is_named_in_the_error() {
    let mut a = args();
    a.include_lang = vec!["rust=html".into(), "elm".into(), "vue".into()];
    let error = resolve(a).unwrap_err();
    assert_eq!(error, ConfigError::BadIncludeLang("elm".to_string()));
    assert_eq!(error.message(), "--include-lang must be id=served, got `elm`");
}

#[test]
fn the_css_entry_is_required_before_anything_else() {
    let mut a = args();
    a.css = None;
    a.source = vec![];
    let error = resolve(a).unwrap_err();
    assert_eq!(error, ConfigError::MissingCss);
    assert_eq!(error.message(), "--css (or css in config) is required");
}

#[test]
fn a_source_is_required() {
    let mut a = args();
    a.source = vec![];
    let error = resolve(a).unwrap_err();
    assert_eq!(error, ConfigError::NoSource);
    assert_eq!(
        error.message(),
        "at least one --source glob (or config source) is required"
    );
}

#[test]
fn flags_override_the_file_and_both_the_environment() {
    let file = FileConfig {
        root: Some("/file".into()),
        css: Some("file.css".into()),
        source: vec!["lib/*.rs".into()],
        include_lang: vec!["elm=html".into()],
        class_regex: vec!["x".into()],
        server: Some("file-server".into()),
        node: Some("file-node".into()),
    };
    let mut a = args();
    a.root = None;
    a.source = vec![];
    let env = Some("env-server".to_string());
    let resolved = LintConfig::resolve(a, file, env).unwrap();
    assert_eq!(resolved.root, "/file");
    assert_eq!(resolved.css, "tw.css");
    assert_eq!(resolved.sources, vec!["lib/*.rs"]);
    assert!(resolved.include_languages.contains_key("rust"));
    assert!(!resolved.include_languages.contains_key("elm"));
    assert_eq!(resolved.server_command, "file-server");
    assert_eq!(resolved.node.unwrap(), "file-node");

    let env = Some("env-server".to_string());
    let resolved = LintConfig::resolve(args(), FileConfig::default(), env).unwrap();
    assert_eq!(resolved.server_command, "env-server");

    let mut a = args();
    a.root = None;
    assert_eq!(resolve(a).unwrap().root, ".");
}

#[test]
fn the_last_of_two_entries_for_a_language_wins() {
    let mut a = args();
    a.include_lang = vec!["rust=html".into(), "elm=html".into(), "rust=a=b".into()];
    let languages = resolve(a).unwrap().include_languages;
    assert_eq!(languages.get("rust").unwrap(), "a=b");
    let ids: Vec<&str> = languages.entries().iter().map(|e| e.0.as_str()).collect();
    assert_eq!(ids, vec!["elm", "rust"]);
}

#[test]
fn a_container_scopes_every_class_pattern() {
    let config = resolve(args()).unwrap().with_container("tw!\\s*\\[".to_string());
    assert_eq!(
        config.class_regexes[1],
        ClassRegex::Container {
            container: "tw!\\s*\\[".to_string(),
            class: r#""([^"]*)""#.to_string()
        }
    );
    assert_eq!(config.css, "tw.css");
}
