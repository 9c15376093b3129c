//! Context around a cursor: imports, outlines, excerpts and prompts.
use std::ops::Range;
use zed_parts::paths::is_path_before;
use zed_parts::zeta_context::excerpt::{
    ExcerptOptions, ExcerptRanges, ExcerptRangesInput, ExpansionChoice,
};
use zed_parts::zeta_context::identifier_index::{IdentifierIndex, IndexedFile};
use zed_parts::zeta_context::identifier_references::{ScoredSnippet, SnippetStyle};
use zed_parts::zeta_context::imports::{CollectImportsInput, Identifier, Imports, Namespace};
use zed_parts::zeta_context::languages::load_languages;
use zed_parts::zeta_context::outline::{query_outline_items, OutlineId, OutlineItem};
use zed_parts::zeta_context::prompt::{PlannedPrompt, PlannedSnippet};
use zed_parts::zeta_context::prompt_planner::PromptPlanner;
use zed_parts::zeta_context::syntax::{parse_source, SyntaxTree};
use zed_parts::zeta_context::treesitter_util::{
    expand_range_to_line_boundaries, language_for_extension, language_for_file,
    language_for_name, line_end_from_offset, line_len, line_start_from_offset,
    offset_from_point, point_from_offset, point_range_from_offset_range, range_intersection,
    range_is_superset_of, range_size, SourceLocation,
};
use zed_parts::zeta_context::zed_code::{
    load_queries, Language, LanguageError, LanguageName, Point,
};

const OUTLINE: &str = "(function_item \"fn\" @context name: (identifier) @name \
                       parameters: (parameters) @signature) @item\n\
                       (mod_item \"mod\" @context name: (identifier) @name) @item";

fn assets() -> Vec<(String, String)> {
    vec![
        ("rust/outline.scm".to_string(), OUTLINE.to_string()),
        ("rust/highlights.scm".to_string(), "(identifier) @variable".to_string()),
    ]
}

fn languages() -> Vec<Language> {
    load_languages(&assets()).unwrap()
}

fn rust(languages: &Vec<Language>) -> &Language {
    language_for_name(languages, &LanguageName("rust".to_string())).unwrap()
}

fn run_collect_imports(language_name: &str, source: &str) -> Option<Imports> {
    let languages = languages();
    let language =
        language_for_name(&languages, &LanguageName(language_name.to_string())).unwrap();
    let tree = parse_source(language, source).unwrap();
    let input = CollectImportsInput { language, tree: &tree, source };
    input.collect_imports()
}

fn rust_symbol(symbol: &str) -> (Namespace, Identifier) {
    let parts = symbol.split("::").collect::<Vec<&str>>();
    let last_part = parts.len().saturating_sub(1);
    (
        Namespace(
            parts[0..last_part]
                .iter()
                .map(|part| Identifier(part.to_string()))
                .collect::<Vec<_>>(),
        ),
        Identifier(parts[last_part].to_string()),
    )
}

#[test]
fn test_collect_rust_imports() {
    let examples = vec![
        (
            "use std::collections::HashMap;",
            vec!["std::collections::HashMap"],
        ),
        (
            "pub use std::collections::HashMap;",
            vec!["std::collections::HashMap"],
        ),
        (
            "use std::collections::{HashMap, HashSet};",
            vec!["std::collections::HashMap", "std::collections::HashSet"],
        ),
        (
            "use std::{any::TypeId, collections::{HashMap, HashSet};",
            vec![
                "std::any::TypeId",
                "std::collections::HashMap",
                "std::collections::HashSet",
            ],
        ),
    ];
    for (source, expected) in examples {
        let imports = run_collect_imports("rust", source);
        let imports =
            imports.expect(&format!("Failed to collect imports for source:\n{}", source));
        let expected_symbols =
            expected.iter().map(|symbol| rust_symbol(symbol)).collect::<Vec<_>>();
        assert_eq!(imports.symbols, expected_symbols, "{source}");
    }
}

#[test]
fn imports_need_a_language_that_has_them() {
    assert!(run_collect_imports("css", "a {}").is_none());
    assert!(run_collect_imports("rust", "fn main() {}").is_none());
    let imports = run_collect_imports("rust", "// hi\nuse a::b;\nuse c;\n").unwrap();
    assert_eq!(imports.symbols.len(), 2);
    assert_eq!(imports.range, 6..22);
}

#[test]
fn languages_are_found_by_extension_and_name() {
    let languages = languages();
    assert_eq!(languages.len(), 10);
    assert_eq!(language_for_extension(&languages, "hpp").unwrap().name.0, "cpp");
    assert_eq!(language_for_extension(&languages, "js").unwrap().name.0, "typescript");
    assert!(language_for_extension(&languages, "txt").is_none());
    assert_eq!(language_for_file(&languages, "src/a.b/main.rs").unwrap().name.0, "rust");
    assert_eq!(language_for_file(&languages, "x.yml").unwrap().name.0, "yaml");
    assert!(language_for_file(&languages, ".rs").is_none());
    for path in ["./a.rs", "../a.rs", "a//b.rs", "a/./b.rs", "a.rs/", "a.rs/.", "/a.rs//"] {
        assert_eq!(language_for_file(&languages, path).unwrap().name.0, "rust", "{path}");
    }
    for path in ["a.rs/..", "a.rs/b", "..", "/", "", "a.rs/.rs"] {
        assert!(language_for_file(&languages, path).is_none(), "{path}");
    }
    assert!(language_for_file(&languages, "src/Makefile").is_none());
    assert!(!language_for_extension(&languages, "css").unwrap().supports_references);
    assert!(language_for_extension(&languages, "tsx").unwrap().supports_references);
    // Each grammar is that of its language.
    for (extension, source) in [
        ("c", "int x;"),
        ("cpp", "class A {};"),
        ("css", "a { color: red; }"),
        ("go", "package main"),
        ("json", "{}"),
        ("py", "x = 1"),
        ("rs", "fn a() {}"),
        ("tsx", "<a/>;"),
        ("ts", "let x: number;"),
        ("yaml", "a: b"),
    ] {
        let language = language_for_extension(&languages, extension).unwrap();
        assert!(parse_source(language, source).is_some(), "{extension}");
    }
}

#[test]
fn queries_that_do_not_suit_the_grammar_are_refused() {
    let outline = vec![("go/outline.scm".to_string(), "(no_such_node) @item".to_string())];
    assert!(matches!(load_languages(&outline), Err(LanguageError::Outline(_))));
    let highlights = vec![("go/highlights.scm".to_string(), "(".to_string())];
    assert!(matches!(load_languages(&highlights), Err(LanguageError::Highlights(_))));
}

#[test]
fn queries_are_joined_from_their_files() {
    let assets = vec![
        ("rust/outline.scm".to_string(), "a".to_string()),
        ("rust/outline-more.scm".to_string(), "b".to_string()),
        ("rust/outline.txt".to_string(), "c".to_string()),
        ("rusty/outline.scm".to_string(), "d".to_string()),
    ];
    let queries = load_queries("rust", &assets);
    assert_eq!(queries.outline.unwrap(), "ab");
    assert!(queries.highlights.is_none());
}

#[test]
fn captures_are_known_by_name() {
    let languages = languages();
    assert_eq!(rust(&languages).capture_id_for_highlight("variable"), Some(0));
    assert_eq!(rust(&languages).capture_id_for_highlight("keyword"), None);
}

fn outline_of(source: &str) -> Vec<OutlineItem> {
    let languages = languages();
    let mut next_id = OutlineId(0);
    let tree = parse_source(rust(&languages), source).unwrap();
    query_outline_items(rust(&languages), &tree, source, &mut next_id).unwrap()
}

#[test]
fn outlines_nest() {
    let source = "mod a {\n    fn b(x: u8) {}\n}\nfn c() {}\n";
    let items = outline_of(source);
    let names: Vec<&str> = items.iter().map(|item| item.name(source)).collect();
    assert_eq!(names, vec!["a", "b", "c"]);
    assert_eq!(items[1].parents, vec![items[0].id]);
    assert!(items[2].parents.is_empty());
    assert_eq!(items[1].item(source), "fn b(x: u8) {}");
    let index = IdentifierIndex {
        files: vec![IndexedFile {
            path: "a.rs".to_string(),
            source: source.to_string(),
            items,
        }],
    };
    assert!(index.locate(OutlineId(1)) == Some((0, 1)));
    assert!(index.locate(OutlineId(9)).is_none());
    let path = index.files[0].items[1].path_string(&index);
    assert!(path.ends_with(&index.files[0].items[1].concise_text));
    assert!(path.starts_with(&index.files[0].items[0].concise_text));
}

#[test]
fn ids_are_not_used_twice() {
    let mut next = OutlineId(3);
    assert_eq!(OutlineId::new_unique(&mut next), OutlineId(3));
    assert_eq!(OutlineId::new_unique(&mut next), OutlineId(4));
}

fn halves(choice: ExpansionChoice) -> bool {
    let ratio = |before: usize, size: usize| (before as f32 / size as f32 - 0.5).abs();
    ratio(choice.forward_before, choice.forward_size)
        < ratio(choice.backward_before, choice.backward_size)
}

fn excerpt_of(source: &str, cursor_offset: usize, window_max_bytes: usize) -> Option<ExcerptRanges> {
    let languages = languages();
    let language = rust(&languages);
    let tree = parse_source(language, source).unwrap();
    let options = ExcerptOptions { window_max_bytes };
    let input = ExcerptRangesInput {
        language,
        tree: &tree,
        source,
        cursor_offset,
        options: &options,
    };
    let mut next_id = OutlineId(0);
    input.select(&halves, &mut next_id)
}

#[test]
fn small_files_are_excerpted_whole() {
    let source = "fn a() {}\nfn b() {}\n";
    let excerpt = excerpt_of(source, 3, 100).unwrap();
    assert_eq!(excerpt.excerpt_range, 0..source.len());
    assert!(excerpt.parent_signature_ranges.is_empty());
    assert_eq!(excerpt.size(), source.len());
}

#[test]
fn excerpts_fit_the_window() {
    let source = "fn a() {}\nfn b() {}\nfn c() {}\nfn d() {}\n";
    let excerpt = excerpt_of(source, 23, 20).unwrap();
    assert!(excerpt.size() <= 20);
    assert!(excerpt.excerpt_range.start <= 20 && excerpt.excerpt_range.end >= 29);
    // A cursor line that is larger than the window has no excerpt.
    assert!(excerpt_of(source, 23, 8).is_none());
}

#[test]
fn excerpts_hold_the_signatures_around_them() {
    let source = "mod outer {\n    fn a() {}\n    fn b() {}\n    fn c() {}\n}\n";
    let cursor = source.find("fn b").unwrap();
    let excerpt = excerpt_of(source, cursor, 30).unwrap();
    assert!(excerpt.size() <= 30);
    let signatures: Vec<Range<usize>> = excerpt.parent_signature_ranges;
    assert_eq!(signatures, vec![0..11]);
}

fn rust_tree(source: &str) -> tree_sitter::Tree {
    let mut parser = tree_sitter::Parser::new();
    parser.set_language(&rust(&languages()).ts_language).unwrap();
    parser.parse(source, None).unwrap()
}

#[test]
fn trees_are_checked() {
    let source = "fn a() {}\nfn b() {}\n";
    let tree = SyntaxTree::new(rust_tree(source), source).unwrap();
    assert_eq!(tree.subtree_end(0), tree.nodes.len());
    assert_eq!((tree.nodes[0].start_byte, tree.nodes[0].end_byte), (0, source.len()));
    let second = tree.next_sibling(1).unwrap();
    assert_eq!(tree.nodes[second].start_byte, 10);
    assert_eq!(tree.nodes[second].depth, 1);
    assert_eq!(tree.previous_sibling(second), Some(1));
    assert_eq!(tree.next_sibling(second), None);
    assert_eq!(tree.nodes, parse_source(rust(&languages()), source).unwrap().nodes);
    // A text that the tree reaches beyond.
    assert!(SyntaxTree::new(rust_tree(source), "fn a() {}").is_none());
    // A text whose characters the tree cuts.
    assert!(SyntaxTree::new(rust_tree("ab"), "\u{20ac}").is_none());
    assert!(SyntaxTree::new(rust_tree(""), "").is_some());
}

#[test]
fn outlines_are_of_the_tree_that_is_given() {
    let languages = languages();
    let tree = parse_source(rust(&languages), "fn a() {}").unwrap();
    let mut next_id = OutlineId(0);
    // The text now reads otherwise, the tree is as it was.
    let items = query_outline_items(rust(&languages), &tree, "fn z() {}", &mut next_id).unwrap();
    assert_eq!(items.len(), 1);
    assert_eq!(items[0].name("fn z() {}"), "z");
    let items = query_outline_items(rust(&languages), &tree, "123456789", &mut next_id).unwrap();
    assert_eq!(items.len(), 1);
    assert_eq!(items[0].name("123456789"), "4");
    assert_eq!(next_id, OutlineId(2));
}

fn item(id: u32, parents: Vec<u32>, signature: Range<usize>, whole: Range<usize>) -> OutlineItem {
    OutlineItem {
        id: OutlineId(id),
        parents: parents.into_iter().map(OutlineId).collect(),
        name_range: signature.start..signature.start,
        item_range: whole,
        signature_range: signature,
        concise_text: String::new(),
    }
}

fn snippet(definition: OutlineItem, definition_file: usize, densities: (i64, i64, i64)) -> ScoredSnippet {
    ScoredSnippet {
        definition,
        definition_file,
        signature_density: densities.0,
        definition_density: densities.1,
        upgrade_density: densities.2,
    }
}

const LIB: &str = "fn one() {\n    1\n}\nfn two() {\n    2\n}\n";
const MAIN: &str = "fn main() {\n    one();\n}\n";

fn index() -> IdentifierIndex {
    IdentifierIndex::new(
        vec![
            IndexedFile {
                path: "/p/src/lib.rs".to_string(),
                source: LIB.to_string(),
                items: vec![item(1, vec![], 0..8, 0..18), item(2, vec![], 19..27, 19..37)],
            },
            IndexedFile {
                path: "/p/src/main.rs".to_string(),
                source: MAIN.to_string(),
                items: vec![],
            },
        ],
    )
    .unwrap()
}

#[test]
fn prompts_show_files_with_the_cursor_last() {
    let index = index();
    let planned = PromptPlanner::populate(
        &index,
        vec![
            snippet(item(1, vec![], 0..8, 0..18), 0, (5, 4, 1)),
            snippet(item(2, vec![], 19..27, 19..37), 0, (0, 0, 0)),
        ],
        1,
        ExcerptRanges { excerpt_range: 0..24, parent_signature_ranges: vec![] },
        16,
        24 + 18,
        "/p".to_string(),
    );
    assert_eq!(planned.snippets.len(), 1);
    assert_eq!(planned.snippets[0].scored_snippet, 0);
    assert_eq!(planned.snippets[0].style, SnippetStyle::Definition);
    assert_eq!(
        planned.to_prompt_string(&index),
        "```src/lib.rs\nfn one() {\n    1\n}\n...\n```\n\n\
         ```src/main.rs\n<|editable_region_start|>\nfn main() {\n    <|user_cursor_is_here|>one();\n\
         }\n<|editable_region_end|>\n...\n```\n\n"
    );
}

#[test]
fn budgets_are_kept() {
    let index = index();
    let snippets = || vec![
        snippet(item(1, vec![], 0..8, 0..18), 0, (5, 4, 1)),
        snippet(item(2, vec![], 19..27, 19..37), 0, (0, 0, 0)),
    ];
    let plan = |budget: usize| {
        PromptPlanner::populate(
            &index,
            snippets(),
            1,
            ExcerptRanges { excerpt_range: 0..24, parent_signature_ranges: vec![] },
            0,
            budget,
            "/p".to_string(),
        )
    };
    assert_eq!(plan(24).snippets.len(), 0);
    // Room for one signature, which is worth more.
    let one = plan(24 + 10);
    assert_eq!(one.snippets.len(), 1);
    assert_eq!(one.snippets[0].style, SnippetStyle::Signature);
    assert_eq!(one.snippets[0].budget_used, 10);
    assert_eq!(plan(1000).snippets.len(), 2);
}

#[test]
fn close_chunks_are_merged_and_others_separated() {
    let index = index();
    let show = |styles: Vec<(usize, SnippetStyle)>| PlannedPrompt {
        scored: vec![
            snippet(item(1, vec![], 0..8, 0..18), 0, (0, 0, 0)),
            snippet(item(2, vec![], 19..27, 19..37), 0, (0, 0, 0)),
        ],
        snippets: styles
            .into_iter()
            .map(|(k, style)| PlannedSnippet { scored_snippet: k, style, budget_used: 0 })
            .collect(),
        excerpt_file: 1,
        excerpt_ranges: ExcerptRanges { excerpt_range: 0..24, parent_signature_ranges: vec![] },
        cursor_offset: 0,
        root_path: "/elsewhere".to_string(),
    };
    let both = show(vec![(1, SnippetStyle::Definition), (0, SnippetStyle::Definition)]);
    let text = both.to_prompt_string(&index);
    assert!(text.starts_with(
        "```/p/src/lib.rs\nfn one() {\n    1\n}\nfn two() {\n    2\n}\n...\n```\n\n"
    ), "{text}");
    let signatures = show(vec![(0, SnippetStyle::Signature), (1, SnippetStyle::Signature)]);
    let text = signatures.to_prompt_string(&index);
    assert!(
        text.starts_with("```/p/src/lib.rs\nfn one() {\n...\nfn two() {\n...\n```\n\n"),
        "{text}"
    );
}

#[test]
fn snippet_lines_follow_the_style() {
    let index = index();
    let scored = snippet(item(2, vec![], 19..27, 19..37), 0, (0, 0, 0));
    assert_eq!(scored.line_range(&index, SnippetStyle::Signature), 19..29);
    assert_eq!(scored.line_range(&index, SnippetStyle::Definition), 19..37);
}

#[test]
fn ranges_relate() {
    assert!(range_is_superset_of(&(0..5), &(1..5)));
    assert!(!range_is_superset_of(&(1..5), &(0..5)));
    assert_eq!(range_intersection(&(0..5), &(3..9)), Some(3..5));
    assert_eq!(range_intersection(&(0..3), &(3..9)), None);
    assert_eq!(range_intersection(&(3..9), &(0..5)), Some(3..5));
    assert_eq!(range_size(3..9), 6);
}

#[test]
fn lines_and_points_relate_to_offsets() {
    let source = "ab\nc\u{e9}d\n\nlast";
    assert_eq!(line_start_from_offset(source, 4), 3);
    assert_eq!(line_end_from_offset(source, 4), 7);
    assert_eq!(expand_range_to_line_boundaries(source, 1..4), 0..7);
    assert_eq!(line_len(source, 0), 2);
    assert_eq!(line_len(source, 1), 4);
    assert_eq!(line_len(source, 2), 0);
    assert_eq!(line_len(source, 3), 4);
    assert_eq!(line_len(source, 9), 0);
    assert_eq!(point_from_offset(source, 3), Point::new(1, 0));
    assert_eq!(offset_from_point(source, Point::new(1, 1)), 4);
    let range = point_range_from_offset_range(source, 0..3);
    assert_eq!(range, Point::new(0, 0)..Point::new(1, 0));
}

#[test]
fn source_locations_are_written_and_read() {
    let location = SourceLocation::from_str("src/a.rs:3:7").unwrap();
    assert_eq!(location.to_string(), "src/a.rs:3:7");
    assert_eq!(location.point, Point::new(2, 6));
    assert!(SourceLocation::from_str("src/a.rs").is_err());
    assert!(SourceLocation::from_str("src/a.rs:x:1").is_err());
    assert!(SourceLocation::from_str("src/a.rs:1:y").is_err());
}

#[test]
fn indexed_files_stand_in_path_order() {
    let file = |path: &str, items: Vec<OutlineItem>| IndexedFile {
        path: path.to_string(),
        source: "fn a() {}".to_string(),
        items,
    };
    assert!(is_path_before("a/b", "a.b") && !is_path_before("a.b", "a/b"));
    assert!(is_path_before("a", "a/b") && is_path_before("a/b", "a/c"));
    assert!(!is_path_before("a", "a"));
    assert!(is_path_before("a//b", "a/.c") == is_path_before("a/b", "a/.c"));
    assert!(!is_path_before("a//b", "a/./b/") && !is_path_before("a/./b/", "a//b"));
    let mut paths = vec!["a.b", "a/b", "b", "a", "/a", "../a", "./a", "/../a", "a//c", ".c", "a/./a"];
    paths.sort_by(|a, b| std::path::Path::new(a).cmp(std::path::Path::new(b)));
    for pair in paths.windows(2) {
        assert!(is_path_before(pair[0], pair[1]), "{pair:?}");
    }
    assert!(IdentifierIndex::new(vec![file("a/b", vec![]), file("a.b", vec![])]).is_some());
    assert!(IdentifierIndex::new(vec![file("a.b", vec![]), file("a/b", vec![])]).is_none());
    assert!(IdentifierIndex::new(vec![file("a", vec![]), file("a", vec![])]).is_none());
    assert!(IdentifierIndex::new(vec![file("a", vec![item(1, vec![], 0..99, 0..3)])]).is_none());
}

#[test]
fn selecting_takes_numbers_for_the_outline() {
    let source = "mod outer {\n    fn a() {}\n    fn b() {}\n}\n";
    let languages = languages();
    let language = rust(&languages);
    let tree = parse_source(language, source).unwrap();
    let options = ExcerptOptions { window_max_bytes: 30 };
    let input =
        ExcerptRangesInput { language, tree: &tree, source, cursor_offset: 20, options: &options };
    let mut next_id = OutlineId(5);
    assert!(input.select(&halves, &mut next_id).is_some());
    assert_eq!(next_id, OutlineId(8));
}

#[test]
fn selecting_a_whole_file_takes_no_numbers() {
    let source = "fn a() {}\nfn b() {}\n";
    let languages = languages();
    let language = rust(&languages);
    let tree = parse_source(language, source).unwrap();
    let mut next_id = OutlineId(5);
    for window_max_bytes in [100, 4] {
        // The whole text fits, or the line of the cursor does not.
        let options = ExcerptOptions { window_max_bytes };
        let input =
            ExcerptRangesInput { language, tree: &tree, source, cursor_offset: 3, options: &options };
        assert_eq!(input.select(&halves, &mut next_id).is_some(), window_max_bytes == 100);
        assert_eq!(next_id, OutlineId(5));
    }
}

#[test]
fn paths_are_shown_below_the_root() {
    let shown = |path: &str, root: &str| {
        let index = IdentifierIndex::new(vec![IndexedFile {
            path: path.to_string(),
            source: MAIN.to_string(),
            items: vec![],
        }])
        .unwrap();
        let prompt = PlannedPrompt {
            scored: vec![],
            snippets: vec![],
            excerpt_file: 0,
            excerpt_ranges: ExcerptRanges {
                excerpt_range: 0..24,
                parent_signature_ranges: vec![],
            },
            cursor_offset: 0,
            root_path: root.to_string(),
        };
        let text = prompt.to_prompt_string(&index);
        text.lines().next().unwrap().trim_start_matches('`').to_string()
    };
    for root in ["/p", "/p/", "/p/.", "/.//p", "//p"] {
        assert_eq!(shown("/p/src/main.rs", root), "src/main.rs", "{root}");
    }
    assert_eq!(shown("./src/main.rs", "."), "src/main.rs");
    assert_eq!(shown("../src/main.rs", ".."), "src/main.rs");
    assert_eq!(shown("p//src/main.rs", "p"), "src/main.rs");
    assert_eq!(shown("/p/src/main.rs", "/p/src/.."), "/p/src/main.rs");
    assert_eq!(shown("/p/src/main.rs", "/pp"), "/p/src/main.rs");
    assert_eq!(shown("/p/src/main.rs", "p"), "/p/src/main.rs");
}

#[test]
fn what_is_shown_is_within_the_budget() {
    // Two definitions in one parent: its signature is paid for once.
    let source = "mod m {\nfn a() {\n1\n}\nfn b() {\n2\n}\n}\n";
    let index = IdentifierIndex::new(vec![IndexedFile {
        path: "/p/a.rs".to_string(),
        source: source.to_string(),
        items: vec![
            item(0, vec![], 0..7, 0..35),
            item(1, vec![0], 8..16, 8..20),
            item(2, vec![0], 21..29, 21..33),
        ],
    }])
    .unwrap();
    for budget in 0..70 {
        let planned = PromptPlanner::populate(
            &index,
            vec![
                snippet(item(1, vec![0], 8..16, 8..20), 0, (5, 4, 1)),
                snippet(item(2, vec![0], 21..29, 21..33), 0, (3, 2, 1)),
            ],
            0,
            ExcerptRanges { excerpt_range: 34..35, parent_signature_ranges: vec![] },
            34,
            budget,
            "/p".to_string(),
        );
        let mut shown = 1;
        for taken in &planned.snippets {
            let lines = planned.scored[taken.scored_snippet].line_range(&index, taken.style);
            assert_eq!(taken.budget_used, lines.end - lines.start);
            shown += taken.budget_used;
        }
        // The excerpt, the signature of the parent and that of one definition.
        assert_eq!(planned.snippets.is_empty(), budget < 1 + 7 + 8);
        if !planned.snippets.is_empty() {
            shown += 7;
            assert!(shown <= budget);
        }
    }
}
