//! The languages that context is gathered for.
use crate::zeta_context::treesitter_util::{is_loaded, load_language, queries_accepted};
use crate::zeta_context::zed_code::{Language, LanguageError};
use tree_sitter::Language as Grammar;
use vstd::prelude::*;
use vstd::string::*;

verus! {

/// The grammars of the languages.
#[derive(Debug)]
pub struct Grammars {
    pub c: Grammar,
    pub cpp: Grammar,
    pub css: Grammar,
    pub go: Grammar,
    pub json: Grammar,
    pub python: Grammar,
    pub rust: Grammar,
    pub tsx: Grammar,
    pub typescript: Grammar,
    pub yaml: Grammar,
}

/// The grammar `tree_sitter_c::LANGUAGE`.
#[verifier::external_body]
fn c_grammar() -> (r: Grammar) {
    tree_sitter_c::LANGUAGE.into()
}

/// The grammar `tree_sitter_cpp::LANGUAGE`.
#[verifier::external_body]
fn cpp_grammar() -> (r: Grammar) {
    tree_sitter_cpp::LANGUAGE.into()
}

/// The grammar `tree_sitter_css::LANGUAGE`.
#[verifier::external_body]
fn css_grammar() -> (r: Grammar) {
    tree_sitter_css::LANGUAGE.into()
}

/// The grammar `tree_sitter_go::LANGUAGE`.
#[verifier::external_body]
fn go_grammar() -> (r: Grammar) {
    tree_sitter_go::LANGUAGE.into()
}

/// The grammar `tree_sitter_json::LANGUAGE`.
#[verifier::external_body]
fn json_grammar() -> (r: Grammar) {
    tree_sitter_json::LANGUAGE.into()
}

/// The grammar `tree_sitter_python::LANGUAGE`.
#[verifier::external_body]
fn python_grammar() -> (r: Grammar) {
    tree_sitter_python::LANGUAGE.into()
}

/// The grammar `tree_sitter_rust::LANGUAGE`.
#[verifier::external_body]
fn rust_grammar() -> (r: Grammar) {
    tree_sitter_rust::LANGUAGE.into()
}

/// The grammar `tree_sitter_typescript::LANGUAGE_TSX`.
#[verifier::external_body]
fn tsx_grammar() -> (r: Grammar) {
    tree_sitter_typescript::LANGUAGE_TSX.into()
}

/// The grammar `tree_sitter_typescript::LANGUAGE_TYPESCRIPT`.
#[verifier::external_body]
fn typescript_grammar() -> (r: Grammar) {
    tree_sitter_typescript::LANGUAGE_TYPESCRIPT.into()
}

/// The grammar `tree_sitter_yaml::LANGUAGE`.
#[verifier::external_body]
fn yaml_grammar() -> (r: Grammar) {
    tree_sitter_yaml::LANGUAGE.into()
}

/// A language before it is loaded: its name, the extensions of its files, its
/// grammar and whether references are found in it.
pub struct LanguageEntry {
    pub name: &'static str,
    pub extensions: Vec<&'static str>,
    pub grammar: Grammar,
    pub supports_references: bool,
}

/// The model of an entry.
pub struct EntryModel {
    pub name: Seq<char>,
    pub extensions: Seq<Seq<char>>,
    pub grammar: Grammar,
    pub supports_references: bool,
}

impl LanguageEntry {
    pub open spec fn model(self) -> EntryModel {
        EntryModel {
            name: self.name@,
            extensions: self.extensions@.map_values(|e: &'static str| e@),
            grammar: self.grammar,
            supports_references: self.supports_references,
        }
    }
}

/// An entry with the given parts.
pub open spec fn entry_of(
    name: Seq<char>,
    extensions: Seq<Seq<char>>,
    grammar: Grammar,
    supports_references: bool,
) -> EntryModel {
    EntryModel { name, extensions, grammar, supports_references }
}

/// The languages in their order.
pub open spec fn entries_of(grammars: Grammars) -> Seq<EntryModel> {
    seq![
        entry_of("c"@, seq!["c"@], grammars.c, true),
        entry_of("cpp"@, seq!["cpp"@, "hpp"@, "cc"@], grammars.cpp, true),
        entry_of("css"@, seq!["css"@], grammars.css, false),
        entry_of("go"@, seq!["go"@], grammars.go, true),
        entry_of("json"@, seq!["json"@], grammars.json, false),
        entry_of("python"@, seq!["py"@], grammars.python, true),
        entry_of("rust"@, seq!["rs"@], grammars.rust, true),
        entry_of("tsx"@, seq!["tsx"@], grammars.tsx, true),
        entry_of("typescript"@, seq!["ts"@, "js"@], grammars.typescript, true),
        entry_of("yaml"@, seq!["yaml"@, "yml"@], grammars.yaml, false),
    ]
}

fn entry(
    name: &'static str,
    extensions: Vec<&'static str>,
    grammar: Grammar,
    supports_references: bool,
) -> (r: LanguageEntry)
    ensures
        r.model() == entry_of(
            name@,
            extensions@.map_values(|e: &'static str| e@),
            grammar,
            supports_references,
        ),
{
    LanguageEntry { name, extensions, grammar, supports_references }
}

/// Lists the languages with their grammars.
fn list_entries(grammars: Grammars) -> (r: Vec<LanguageEntry>)
    ensures
        r@.map_values(|e: LanguageEntry| e.model()) == entries_of(grammars),
{
    let c: Vec<&'static str> = vec!["c"];
    let cpp: Vec<&'static str> = vec!["cpp", "hpp", "cc"];
    let css: Vec<&'static str> = vec!["css"];
    let go: Vec<&'static str> = vec!["go"];
    let json: Vec<&'static str> = vec!["json"];
    let python: Vec<&'static str> = vec!["py"];
    let rust: Vec<&'static str> = vec!["rs"];
    let tsx: Vec<&'static str> = vec!["tsx"];
    let typescript: Vec<&'static str> = vec!["ts", "js"];
    let yaml: Vec<&'static str> = vec!["yaml", "yml"];
    proof {
        let text = |e: &'static str| e@;
        assert(c@.map_values(text) =~= seq!["c"@]);
        assert(cpp@.map_values(text) =~= seq!["cpp"@, "hpp"@, "cc"@]);
        assert(css@.map_values(text) =~= seq!["css"@]);
        assert(go@.map_values(text) =~= seq!["go"@]);
        assert(json@.map_values(text) =~= seq!["json"@]);
        assert(python@.map_values(text) =~= seq!["py"@]);
        assert(rust@.map_values(text) =~= seq!["rs"@]);
        assert(tsx@.map_values(text) =~= seq!["tsx"@]);
        assert(typescript@.map_values(text) =~= seq!["ts"@, "js"@]);
        assert(yaml@.map_values(text) =~= seq!["yaml"@, "yml"@]);
    }
    let r: Vec<LanguageEntry> = vec![
        entry("c", c, grammars.c, true),
        entry("cpp", cpp, grammars.cpp, true),
        entry("css", css, grammars.css, false),
        entry("go", go, grammars.go, true),
        entry("json", json, grammars.json, false),
        entry("python", python, grammars.python, true),
        entry("rust", rust, grammars.rust, true),
        entry("tsx", tsx, grammars.tsx, true),
        entry("typescript", typescript, grammars.typescript, true),
        entry("yaml", yaml, grammars.yaml, false),
    ];
    assert(r@.map_values(|e: LanguageEntry| e.model()) =~= entries_of(grammars));
    r
}

/// Whether every language is loaded, in order.
pub open spec fn are_loaded(
    languages: Seq<Language>,
    entries: Seq<EntryModel>,
    assets: Seq<(String, String)>,
) -> bool {
    &&& languages.len() == entries.len()
    &&& forall|i: int|
        0 <= i < entries.len() ==> is_loaded(
            #[trigger] languages[i],
            entries[i].name,
            entries[i].extensions,
            entries[i].grammar,
            entries[i].supports_references,
            assets,
        )
}

/// Whether the assets' queries for an entry suit its grammar.
pub open spec fn entry_accepted(entry: EntryModel, assets: Seq<(String, String)>) -> bool {
    queries_accepted(entry.grammar, vstd::utf8::encode_utf8(entry.name), assets)
}

/// Whether the languages are loaded, or an asset is a query that does not suit its
/// language.
pub open spec fn is_result(
    r: Result<Vec<Language>, LanguageError>,
    grammars: Grammars,
    assets: Seq<(String, String)>,
) -> bool {
    let entries = entries_of(grammars);
    &&& r is Ok <==> forall|i: int|
        0 <= i < entries.len() ==> entry_accepted(#[trigger] entries[i], assets)
    &&& r matches Ok(languages) ==> are_loaded(languages@, entries, assets)
}

/// Loads the languages with given grammars. It fails where an asset is a query that
/// does not suit its language.
pub fn load_languages_with(grammars: Grammars, assets: &Vec<(String, String)>) -> (r: Result<
    Vec<Language>,
    LanguageError,
>)
    ensures
        is_result(r, grammars, assets@),
{
    let ghost models = entries_of(grammars);
    let mut entries = list_entries(grammars);
    let mut languages: Vec<Language> = Vec::new();
    let ghost all = entries@;
    proof {
        assert(models.len() == all.len());
        assert forall|i: int| 0 <= i < all.len() implies (#[trigger] all[i]).model()
            == models[i] by {
            assert(all.map_values(|e: LanguageEntry| e.model())[i] == all[i].model());
        }
    }
    while entries.len() > 0
        invariant
            models == entries_of(grammars),
            models.len() == all.len(),
            forall|i: int| 0 <= i < all.len() ==> (#[trigger] all[i]).model() == models[i],
            languages@.len() + entries@.len() == all.len(),
            entries@ == all.skip(languages@.len() as int),
            are_loaded(languages@, models.take(languages@.len() as int), assets@),
            forall|i: int|
                0 <= i < languages@.len() ==> entry_accepted(#[trigger] models[i], assets@),
        decreases entries@.len(),
    {
        let ghost n = languages@.len() as int;
        let ghost loaded = languages@;
        let next = entries.remove(0);
        proof {
            assert(next == all[n]);
            assert(next.model() == models[n]);
            assert(entries@ =~= all.skip(n + 1));
        }
        match load_language(
            next.name,
            next.extensions.as_slice(),
            next.grammar,
            next.supports_references,
            assets,
        ) {
            Ok(language) => {
                languages.push(language);
                proof {
                    let now = models.take(n + 1);
                    assert forall|i: int| 0 <= i < now.len() implies is_loaded(
                        #[trigger] languages@[i],
                        now[i].name,
                        now[i].extensions,
                        now[i].grammar,
                        now[i].supports_references,
                        assets@,
                    ) by {
                        if i < n {
                            assert(languages@[i] == loaded[i]);
                            assert(models.take(n)[i] == now[i]);
                        } else {
                            assert(models[n].extensions == next.extensions@.map_values(
                                |e: &'static str| e@,
                            ));
                        }
                    }
                }
            },
            Err(error) => {
                assert(!entry_accepted(models[n], assets@));
                return Err(error);
            },
        }
    }
    assert(models.take(languages@.len() as int) =~= models);
    Ok(languages)
}

/// Loads the languages with the grammars of the tree-sitter crates.
pub fn load_languages(assets: &Vec<(String, String)>) -> (r: Result<Vec<Language>, LanguageError>)
    ensures
        exists|grammars: Grammars| #[trigger] is_result(r, grammars, assets@),
{
    let grammars = Grammars {
        c: c_grammar(),
        cpp: cpp_grammar(),
        css: css_grammar(),
        go: go_grammar(),
        json: json_grammar(),
        python: python_grammar(),
        rust: rust_grammar(),
        tsx: tsx_grammar(),
        typescript: typescript_grammar(),
        yaml: yaml_grammar(),
    };
    load_languages_with(grammars, assets)
}

/// No extension belongs to two languages, so the extension of a file tells its
/// language.
pub proof fn law_extensions_tell_languages(grammars: Grammars, i: int, j: int, extension: Seq<char>)
    requires
        0 <= i < entries_of(grammars).len(),
        0 <= j < entries_of(grammars).len(),
        entries_of(grammars)[i].extensions.contains(extension),
        entries_of(grammars)[j].extensions.contains(extension),
    ensures
        i == j,
{
    lemma_extension_place(grammars, i, extension);
    lemma_extension_place(grammars, j, extension);
}

/// Where the language of an extension stands among the entries, told by the
/// extension's length and letters.
spec fn place_of(extension: Seq<char>) -> int {
    if extension.len() == 1 {
        0
    } else if extension.len() == 2 {
        if extension[1] == 'c' {
            1
        } else if extension[1] == 'o' {
            3
        } else if extension[1] == 'y' {
            5
        } else if extension[0] == 'r' {
            6
        } else {
            8
        }
    } else if extension.len() == 3 {
        if extension[1] == 'p' {
            1
        } else if extension[0] == 'c' {
            2
        } else if extension[0] == 't' {
            7
        } else {
            9
        }
    } else if extension[0] == 'j' {
        4
    } else {
        9
    }
}

proof fn lemma_extension_place(grammars: Grammars, i: int, extension: Seq<char>)
    requires
        0 <= i < entries_of(grammars).len(),
        entries_of(grammars)[i].extensions.contains(extension),
    ensures
        i == place_of(extension),
{
    lemma_extension_texts();
    let entries = entries_of(grammars);
    let k = choose|k: int|
        0 <= k < entries[i].extensions.len() && entries[i].extensions[k] == extension;
    if i == 0 {
        assert(entries[0].extensions == seq!["c"@]);
    } else if i == 1 {
        assert(entries[1].extensions == seq!["cpp"@, "hpp"@, "cc"@]);
        assert(k == 0 || k == 1 || k == 2);
    } else if i == 2 {
        assert(entries[2].extensions == seq!["css"@]);
    } else if i == 3 {
        assert(entries[3].extensions == seq!["go"@]);
    } else if i == 4 {
        assert(entries[4].extensions == seq!["json"@]);
    } else if i == 5 {
        assert(entries[5].extensions == seq!["py"@]);
    } else if i == 6 {
        assert(entries[6].extensions == seq!["rs"@]);
    } else if i == 7 {
        assert(entries[7].extensions == seq!["tsx"@]);
    } else if i == 8 {
        assert(entries[8].extensions == seq!["ts"@, "js"@]);
        assert(k == 0 || k == 1);
    } else {
        assert(i == 9);
        assert(entries[9].extensions == seq!["yaml"@, "yml"@]);
        assert(k == 0 || k == 1);
    }
}

proof fn lemma_extension_texts()
    ensures
        "c"@ == seq!['c'],
        "cpp"@ == seq!['c', 'p', 'p'],
        "hpp"@ == seq!['h', 'p', 'p'],
        "cc"@ == seq!['c', 'c'],
        "css"@ == seq!['c', 's', 's'],
        "go"@ == seq!['g', 'o'],
        "json"@ == seq!['j', 's', 'o', 'n'],
        "py"@ == seq!['p', 'y'],
        "rs"@ == seq!['r', 's'],
        "tsx"@ == seq!['t', 's', 'x'],
        "ts"@ == seq!['t', 's'],
        "js"@ == seq!['j', 's'],
        "yaml"@ == seq!['y', 'a', 'm', 'l'],
        "yml"@ == seq!['y', 'm', 'l'],
{
    reveal_strlit("c");
    reveal_strlit("cpp");
    reveal_strlit("hpp");
    reveal_strlit("cc");
    reveal_strlit("css");
    reveal_strlit("go");
    reveal_strlit("json");
    reveal_strlit("py");
    reveal_strlit("rs");
    reveal_strlit("tsx");
    reveal_strlit("ts");
    reveal_strlit("js");
    reveal_strlit("yaml");
    reveal_strlit("yml");
}

/// References are followed in programming languages, and not in the formats that hold
/// styles or data.
pub proof fn law_references_in_programs(grammars: Grammars, i: int)
    requires
        0 <= i < entries_of(grammars).len(),
    ensures
        entries_of(grammars)[i].supports_references <==> {
            &&& entries_of(grammars)[i].name != "css"@
            &&& entries_of(grammars)[i].name != "json"@
            &&& entries_of(grammars)[i].name != "yaml"@
        },
{
    lemma_extension_texts();
    reveal_strlit("python");
    reveal_strlit("rust");
    reveal_strlit("typescript");
    let entries = entries_of(grammars);
    assert(entries.len() == 10);
    assert("css"@[0] == 'c' && "css"@[1] == 's' && "json"@[0] == 'j' && "yaml"@[0] == 'y');
    if i == 0 {
        assert(entries[0].name == "c"@);
    } else if i == 1 {
        assert(entries[1].name == "cpp"@);
        assert("cpp"@[1] == 'p');
    } else if i == 2 {
        assert(entries[2].name == "css"@);
    } else if i == 3 {
        assert(entries[3].name == "go"@);
    } else if i == 4 {
        assert(entries[4].name == "json"@);
    } else if i == 5 {
        assert(entries[5].name == "python"@);
    } else if i == 6 {
        assert(entries[6].name == "rust"@);
        assert("rust"@[0] == 'r');
    } else if i == 7 {
        assert(entries[7].name == "tsx"@);
        assert("tsx"@[0] == 't');
    } else if i == 8 {
        assert(entries[8].name == "typescript"@);
    } else {
        assert(i == 9);
        assert(entries[9].name == "yaml"@);
    }
}

} // verus!
