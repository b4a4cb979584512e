//! Configuration: what the flags, the config file and the environment say,
//! resolved into one `LintConfig`.
use crate::languages::Languages;
use crate::text::{split_once_at, split_once_text, strings, text_of};
use vstd::prelude::*;
use vstd::string::*;

verus! {

/// What the command line says.
#[derive(Debug)]
pub struct CliArgs {
    pub config: Option<String>,
    pub root: Option<String>,
    pub css: Option<String>,
    pub source: Vec<String>,
    pub include_lang: Vec<String>,
    pub class_regex: Vec<String>,
    pub server: Option<String>,
    pub node: Option<String>,
    pub fix: bool,
}

/// How classes are found: a pattern for the class alone, or a pattern for the
/// block that holds classes together with the pattern for one class.
#[derive(Debug, Clone, PartialEq, Eq)]
pub enum ClassRegex {
    Simple(String),
    Container { container: String, class: String },
}

pub enum ClassRegexView {
    Simple(Seq<char>),
    Container { container: Seq<char>, class: Seq<char> },
}

impl View for ClassRegex {
    type V = ClassRegexView;

    open spec fn view(&self) -> ClassRegexView {
        match self {
            ClassRegex::Simple(pattern) => ClassRegexView::Simple(pattern@),
            ClassRegex::Container { container, class } => ClassRegexView::Container {
                container: container@,
                class: class@,
            },
        }
    }
}

pub open spec fn regex_views(list: Seq<ClassRegex>) -> Seq<ClassRegexView> {
    list.map_values(|r: ClassRegex| r@)
}

/// What a config file says; everything in it is optional.
#[derive(Debug)]
pub struct FileConfig {
    pub root: Option<String>,
    pub css: Option<String>,
    pub source: Vec<String>,
    pub include_lang: Vec<String>,
    pub class_regex: Vec<String>,
    pub server: Option<String>,
    pub node: Option<String>,
}

impl Default for FileConfig {
    /// The config of an absent file.
    fn default() -> (file: FileConfig)
        ensures
            file.root is None,
            file.css is None,
            file.source@.len() == 0,
            file.include_lang@.len() == 0,
            file.class_regex@.len() == 0,
            file.server is None,
            file.node is None,
    {
        FileConfig {
            root: None,
            css: None,
            source: Vec::new(),
            include_lang: Vec::new(),
            class_regex: Vec::new(),
            server: None,
            node: None,
        }
    }
}

/// The resolved configuration of a run.
#[derive(Debug, Clone)]
pub struct LintConfig {
    pub root: String,
    pub css: String,
    pub sources: Vec<String>,
    pub include_languages: Languages,
    pub class_regexes: Vec<ClassRegex>,
    pub server_command: String,
    pub node: Option<String>,
    pub fix: bool,
    pub resolve: bool,
}

/// Why a configuration cannot be resolved.
#[derive(Debug, PartialEq, Eq)]
pub enum ConfigError {
    /// Neither a flag nor the file names the CSS entry.
    MissingCss,
    /// Neither a flag nor the file names a source glob.
    NoSource,
    /// An `--include-lang` entry has no `=`.
    BadIncludeLang(String),
}

/// A flag, or in its absence what the file says.
pub open spec fn flag_or_file(flag: Option<String>, file: Option<String>) -> Option<Seq<char>> {
    if flag is Some {
        text_of(flag)
    } else {
        text_of(file)
    }
}

/// The flags, or where there are none what the file lists.
pub open spec fn flags_or_file(flags: Seq<String>, file: Seq<String>) -> Seq<Seq<char>> {
    if flags.len() == 0 {
        strings(file)
    } else {
        strings(flags)
    }
}

/// The root of a run, where one is named.
pub open spec fn chosen_root(named: Option<Seq<char>>) -> Seq<char> {
    match named {
        Some(root) => root,
        None => "."@,
    }
}

/// The command of the server: as it is named, else as the environment has it, else
/// the server's own name.
pub open spec fn chosen_server(named: Option<Seq<char>>, env: Option<Seq<char>>) -> Seq<char> {
    match named {
        Some(server) => server,
        None => match env {
            Some(server) => server,
            None => "tailwindcss-language-server"@,
        },
    }
}

/// The first `--include-lang` entry without a `=`.
pub open spec fn bad_language(entries: Seq<Seq<char>>) -> Option<Seq<char>>
    decreases entries.len(),
{
    if entries.len() == 0 {
        None
    } else if split_once_at(entries[0], '=') is None {
        Some(entries[0])
    } else {
        bad_language(entries.drop_first())
    }
}

/// What the `--include-lang` entries map; of two entries for one id the later
/// one holds.
pub open spec fn language_map(entries: Seq<Seq<char>>) -> Map<Seq<char>, Seq<char>>
    decreases entries.len(),
{
    if entries.len() == 0 {
        Map::empty()
    } else {
        match split_once_at(entries.last(), '=') {
            Some(pair) => language_map(entries.drop_last()).insert(pair.0, pair.1),
            None => language_map(entries.drop_last()),
        }
    }
}

fn or_else(first: Option<String>, second: Option<String>) -> (chosen: Option<String>)
    ensures
        text_of(chosen) == flag_or_file(first, second),
{
    match first {
        Some(text) => Some(text),
        None => second,
    }
}

fn list_or_else(first: Vec<String>, second: Vec<String>) -> (chosen: Vec<String>)
    ensures
        strings(chosen@) == flags_or_file(first@, second@),
{
    if first.is_empty() {
        second
    } else {
        first
    }
}

/// Without an `=` at fault in the first `n` entries, the first fault is sought
/// behind them.
proof fn lemma_bad_language_skips(entries: Seq<Seq<char>>, n: int)
    requires
        0 <= n <= entries.len(),
        forall|i: int| 0 <= i < n ==> split_once_at(#[trigger] entries[i], '=') is Some,
    ensures
        bad_language(entries) == bad_language(entries.skip(n)),
    decreases n,
{
    if n == 0 {
        assert(entries.skip(0) =~= entries);
    } else {
        let rest = entries.drop_first();
        assert forall|i: int| 0 <= i < n - 1 implies split_once_at(#[trigger] rest[i], '=') is Some by {
            assert(rest[i] == entries[i + 1]);
        }
        assert(split_once_at(entries[0], '=') is Some);
        lemma_bad_language_skips(rest, n - 1);
        assert(rest.skip(n - 1) =~= entries.skip(n));
    }
}

/// Read the `id=served` entries.
fn read_languages(entries: &Vec<String>) -> (languages: Result<Languages, String>)
    ensures
        match languages {
            Ok(map) => bad_language(strings(entries@)) is None && map@ == language_map(
                strings(entries@),
            ),
            Err(entry) => bad_language(strings(entries@)) == Some(entry@),
        },
{
    let mut languages = Languages::new();
    let mut i: usize = 0;
    let ghost all = strings(entries@);
    while i < entries.len()
        invariant
            i <= entries@.len(),
            all == strings(entries@),
            forall|j: int| 0 <= j < i ==> split_once_at(#[trigger] all[j], '=') is Some,
            languages@ == language_map(all.take(i as int)),
        decreases entries@.len() - i,
    {
        proof {
            lemma_bad_language_skips(all, i as int);
            assert(all.skip(i as int)[0] == entries@[i as int]@);
            assert(all.take(i + 1).drop_last() =~= all.take(i as int));
            assert(all.take(i + 1).last() == entries@[i as int]@);
        }
        match split_once_text(entries[i].as_str(), '=') {
            Some(pair) => {
                languages.insert(pair.0, pair.1);
            },
            None => {
                return Err(entries[i].clone());
            },
        }
        i += 1;
    }
    proof {
        lemma_bad_language_skips(all, i as int);
        assert(all.skip(i as int) =~= Seq::empty());
        assert(all.take(i as int) =~= all);
    }
    Ok(languages)
}

/// Patterns for the class alone.
pub open spec fn simple_views(patterns: Seq<Seq<char>>) -> Seq<ClassRegexView> {
    patterns.map_values(|p: Seq<char>| ClassRegexView::Simple(p))
}

fn simple_regexes(patterns: Vec<String>) -> (regexes: Vec<ClassRegex>)
    ensures
        regex_views(regexes@) == simple_views(strings(patterns@)),
{
    let mut regexes: Vec<ClassRegex> = Vec::new();
    let mut i: usize = 0;
    while i < patterns.len()
        invariant
            i <= patterns@.len(),
            regexes@.len() == i,
            forall|j: int|
                0 <= j < i ==> (#[trigger] regexes@[j])@ == ClassRegexView::Simple(patterns@[j]@),
        decreases patterns@.len() - i,
    {
        regexes.push(ClassRegex::Simple(patterns[i].clone()));
        i += 1;
    }
    assert(regex_views(regexes@) =~= simple_views(strings(patterns@)));
    regexes
}

impl ConfigError {
    /// The message for the user.
    pub fn message(&self) -> (text: String)
        ensures
            text@ == match self {
                ConfigError::MissingCss => "--css (or css in config) is required"@,
                ConfigError::NoSource =>
                    "at least one --source glob (or config source) is required"@,
                ConfigError::BadIncludeLang(entry) => "--include-lang must be id=served, got `"@
                    + entry@ + "`"@,
            },
    {
        match self {
            ConfigError::MissingCss => "--css (or css in config) is required".to_string(),
            ConfigError::NoSource =>
                "at least one --source glob (or config source) is required".to_string(),
            ConfigError::BadIncludeLang(entry) => {
                let mut text = "--include-lang must be id=served, got `".to_string();
                text.append(entry.as_str());
                text.append("`");
                text
            },
        }
    }
}

/// A pattern for the class alone, scoped to the blocks of a container.
pub open spec fn scoped_view(regex: ClassRegexView, container: Seq<char>) -> ClassRegexView {
    match regex {
        ClassRegexView::Simple(class) => ClassRegexView::Container { container, class },
        ClassRegexView::Container { .. } => regex,
    }
}

impl LintConfig {
    /// Scope every class pattern to the blocks of a container
    /// (`--class-container` beside `--class-regex`).
    pub fn with_container(self, container: String) -> (config: LintConfig)
        ensures
            config.root == self.root,
            config.css == self.css,
            config.sources == self.sources,
            config.include_languages == self.include_languages,
            config.server_command == self.server_command,
            config.node == self.node,
            config.fix == self.fix,
            config.resolve == self.resolve,
            regex_views(config.class_regexes@) == regex_views(self.class_regexes@).map_values(
                |r: ClassRegexView| scoped_view(r, container@),
            ),
    {
        let mut class_regexes: Vec<ClassRegex> = Vec::new();
        let mut i: usize = 0;
        while i < self.class_regexes.len()
            invariant
                i <= self.class_regexes@.len(),
                class_regexes@.len() == i,
                forall|j: int|
                    0 <= j < i ==> (#[trigger] class_regexes@[j])@ == scoped_view(
                        self.class_regexes@[j]@,
                        container@,
                    ),
            decreases self.class_regexes@.len() - i,
        {
            class_regexes.push(
                match &self.class_regexes[i] {
                    ClassRegex::Simple(class) => ClassRegex::Container {
                        container: container.clone(),
                        class: class.clone(),
                    },
                    ClassRegex::Container { container: own, class } => ClassRegex::Container {
                        container: own.clone(),
                        class: class.clone(),
                    },
                },
            );
            i += 1;
        }
        assert(regex_views(class_regexes@) =~= regex_views(self.class_regexes@).map_values(
            |r: ClassRegexView| scoped_view(r, container@),
        ));
        LintConfig {
            root: self.root,
            css: self.css,
            sources: self.sources,
            include_languages: self.include_languages,
            class_regexes,
            server_command: self.server_command,
            node: self.node,
            fix: self.fix,
            resolve: self.resolve,
        }
    }

    /// Resolve what the flags say, what the config file says, and the server
    /// command that the environment names. A flag overrides the file, and both
    /// override the environment.
    pub fn resolve(args: CliArgs, file: FileConfig, server_env: Option<String>) -> (res: Result<
        LintConfig,
        ConfigError,
    >)
        ensures
            res == Err::<LintConfig, ConfigError>(ConfigError::MissingCss) <==> flag_or_file(
                args.css,
                file.css,
            ) is None,
            res == Err::<LintConfig, ConfigError>(ConfigError::NoSource) <==> flag_or_file(
                args.css,
                file.css,
            ) is Some && flags_or_file(args.source@, file.source@).len() == 0,
            (res matches Err(ConfigError::BadIncludeLang(_))) <==> flag_or_file(
                args.css,
                file.css,
            ) is Some && flags_or_file(args.source@, file.source@).len() > 0 && bad_language(
                flags_or_file(args.include_lang@, file.include_lang@),
            ) is Some,
            res matches Err(ConfigError::BadIncludeLang(entry)) ==> bad_language(
                flags_or_file(args.include_lang@, file.include_lang@),
            ) == Some(entry@),
            res matches Ok(config) ==> {
                &&& config.root@ == chosen_root(flag_or_file(args.root, file.root))
                &&& Some(config.css@) == flag_or_file(args.css, file.css)
                &&& strings(config.sources@) == flags_or_file(args.source@, file.source@)
                &&& config.include_languages@ == language_map(
                    flags_or_file(args.include_lang@, file.include_lang@),
                )
                &&& regex_views(config.class_regexes@) == simple_views(
                    flags_or_file(args.class_regex@, file.class_regex@),
                )
                &&& config.server_command@ == chosen_server(
                    flag_or_file(args.server, file.server),
                    text_of(server_env),
                )
                &&& text_of(config.node) == flag_or_file(args.node, file.node)
                &&& config.fix == args.fix
                &&& !config.resolve
            },
    {
        let root = match or_else(args.root, file.root) {
            Some(root) => root,
            None => ".".to_string(),
        };
        let css = match or_else(args.css, file.css) {
            Some(css) => css,
            None => {
                return Err(ConfigError::MissingCss);
            },
        };
        let sources = list_or_else(args.source, file.source);
        assert(sources@.len() == strings(sources@).len());
        if sources.is_empty() {
            return Err(ConfigError::NoSource);
        }
        let include_raw = list_or_else(args.include_lang, file.include_lang);
        let include_languages = match read_languages(&include_raw) {
            Ok(languages) => languages,
            Err(entry) => {
                return Err(ConfigError::BadIncludeLang(entry));
            },
        };
        let class_regexes = simple_regexes(list_or_else(args.class_regex, file.class_regex));
        let server_command = match or_else(args.server, file.server) {
            Some(server) => server,
            None => match server_env {
                Some(server) => server,
                None => "tailwindcss-language-server".to_string(),
            },
        };
        let node = or_else(args.node, file.node);
        Ok(
            LintConfig {
                root,
                css,
                sources,
                include_languages,
                class_regexes,
                server_command,
                node,
                fix: args.fix,
                resolve: false,
            },
        )
    }
}

} // verus!
