//! The settings that the language server asks the linter for.
use crate::cli::{regex_views, ClassRegex, ClassRegexView, LintConfig};
use crate::json::{field, json_views, lemma_array_view, Fields, Json, JsonView};
use crate::languages::{keys_increase, pair_views, pairs_map};
use vstd::prelude::*;
use vstd::string::*;

verus! {

/// Some pairs list a map: each key once, in order.
pub open spec fn lists_map(
    pairs: Seq<(Seq<char>, Seq<char>)>,
    map: Map<Seq<char>, Seq<char>>,
) -> bool {
    keys_increase(pairs) && pairs_map(pairs) == map
}

/// The languages as a JSON object.
pub open spec fn languages_json(pairs: Seq<(Seq<char>, Seq<char>)>) -> JsonView {
    JsonView::Object(
        pairs.map_values(|p: (Seq<char>, Seq<char>)| field(p.0, JsonView::Text(p.1))),
    )
}

/// A class pattern in JSON: a text, or the container and the class in an array.
pub open spec fn regex_json(regex: ClassRegexView) -> JsonView {
    match regex {
        ClassRegexView::Simple(pattern) => JsonView::Text(pattern),
        ClassRegexView::Container { container, class } => JsonView::Array(
            seq![JsonView::Text(container), JsonView::Text(class)],
        ),
    }
}

pub open spec fn regexes_json(regexes: Seq<ClassRegexView>) -> JsonView {
    JsonView::Array(regexes.map_values(|r: ClassRegexView| regex_json(r)))
}

/// How serious the server takes each of its lints.
pub open spec fn lint_json() -> JsonView {
    JsonView::Object(
        seq![
            field("cssConflict"@, JsonView::Text("warning"@)),
            field("invalidApply"@, JsonView::Text("error"@)),
            field("invalidScreen"@, JsonView::Text("error"@)),
            field("invalidVariant"@, JsonView::Text("error"@)),
            field("invalidConfigPath"@, JsonView::Text("error"@)),
            field("invalidTailwindDirective"@, JsonView::Text("error"@)),
            field("recommendedVariantOrder"@, JsonView::Text("warning"@)),
        ],
    )
}

/// The settings for some languages, class patterns and an entry stylesheet.
pub open spec fn settings_json(
    pairs: Seq<(Seq<char>, Seq<char>)>,
    regexes: Seq<ClassRegexView>,
    css: Seq<char>,
) -> JsonView {
    JsonView::Object(
        seq![
            field("includeLanguages"@, languages_json(pairs)),
            field(
                "experimental"@,
                JsonView::Object(
                    seq![
                        field("classRegex"@, regexes_json(regexes)),
                        field("configFile"@, JsonView::Text(css)),
                    ],
                ),
            ),
            field("lint"@, lint_json()),
            field("validate"@, JsonView::Bool(true)),
        ],
    )
}

/// The settings for a configuration.
pub open spec fn settings_for(settings: JsonView, config: LintConfig) -> bool {
    exists|pairs: Seq<(Seq<char>, Seq<char>)>| #[trigger]
        lists_map(pairs, config.include_languages@) && settings == settings_json(
            pairs,
            regex_views(config.class_regexes@),
            config.css@,
        )
}

fn languages_object(entries: &Vec<(String, String)>) -> (json: Json)
    ensures
        json@ == languages_json(pair_views(entries@)),
{
    let mut fields = Fields::new();
    let mut i: usize = 0;
    let ghost all = pair_views(entries@);
    let ghost shown = all.map_values(
        |p: (Seq<char>, Seq<char>)| field(p.0, JsonView::Text(p.1)),
    );
    assert(fields@ =~= shown.take(0));
    while i < entries.len()
        invariant
            i <= entries@.len(),
            all == pair_views(entries@),
            shown == all.map_values(|p: (Seq<char>, Seq<char>)| field(p.0, JsonView::Text(p.1))),
            fields@ == shown.take(i as int),
        decreases entries@.len() - i,
    {
        let entry = &entries[i];
        assert(all[i as int] == (entry.0@, entry.1@));
        fields = fields.with(entry.0.as_str(), Json::text(entry.1.as_str()));
        assert(fields@ =~= shown.take(i + 1));
        i += 1;
    }
    assert(shown.take(i as int) =~= shown);
    fields.object()
}

fn regex_value(regex: &ClassRegex) -> (json: Json)
    ensures
        json@ == regex_json(regex@),
{
    match regex {
        ClassRegex::Simple(pattern) => Json::text(pattern.as_str()),
        ClassRegex::Container { container, class } => {
            let mut pair: Vec<Json> = Vec::new();
            pair.push(Json::text(container.as_str()));
            pair.push(Json::text(class.as_str()));
            proof {
                lemma_array_view(pair);
                assert(json_views(pair@) =~= seq![
                    JsonView::Text(container@),
                    JsonView::Text(class@),
                ]);
            }
            Json::Array(pair)
        },
    }
}

fn regex_list(regexes: &Vec<ClassRegex>) -> (json: Json)
    ensures
        json@ == regexes_json(regex_views(regexes@)),
{
    let mut list: Vec<Json> = Vec::new();
    let mut i: usize = 0;
    while i < regexes.len()
        invariant
            i <= regexes@.len(),
            list@.len() == i,
            forall|j: int| 0 <= j < i ==> (#[trigger] list@[j])@ == regex_json(regexes@[j]@),
        decreases regexes@.len() - i,
    {
        list.push(regex_value(&regexes[i]));
        i += 1;
    }
    proof {
        lemma_array_view(list);
        assert(json_views(list@) =~= regex_views(regexes@).map_values(
            |r: ClassRegexView| regex_json(r),
        ));
    }
    Json::Array(list)
}

/// The `tailwindCSS` settings, which the server pulls with
/// `workspace/configuration`.
pub fn tailwind_settings(config: &LintConfig) -> (settings: Json)
    ensures
        settings_for(settings@, *config),
{
    let entries = config.include_languages.entries();
    let ghost pairs = pair_views(entries@);
    let experimental = Fields::new().with("classRegex", regex_list(&config.class_regexes)).with(
        "configFile",
        Json::text(config.css.as_str()),
    );
    let lint = Fields::new().with("cssConflict", Json::text("warning")).with(
        "invalidApply",
        Json::text("error"),
    ).with("invalidScreen", Json::text("error")).with("invalidVariant", Json::text("error")).with(
        "invalidConfigPath",
        Json::text("error"),
    ).with("invalidTailwindDirective", Json::text("error")).with(
        "recommendedVariantOrder",
        Json::text("warning"),
    );
    assert(JsonView::Object(lint@)->Object_0 =~= lint_json()->Object_0);
    let ghost shown = experimental@;
    let settings = Fields::new().with("includeLanguages", languages_object(entries)).with(
        "experimental",
        experimental.object(),
    ).with("lint", lint.object()).with("validate", Json::Bool(true));
    proof {
        let expected = settings_json(pairs, regex_views(config.class_regexes@), config.css@);
        assert(shown =~= expected->Object_0[1].value->Object_0);
        assert(settings@ =~= expected->Object_0);
        assert(lists_map(pairs, config.include_languages@));
    }
    settings.object()
}

} // verus!
