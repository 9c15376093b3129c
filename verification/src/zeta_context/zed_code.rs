//! Languages with their grammars and queries, and points in a text buffer.
use crate::text::{
    bytes_at, ends_with, has_prefix, has_suffix, lemma_boundary_after_ascii, slice, starts_with,
    str_eq,
};
use tree_sitter::Language as Grammar;
use vstd::prelude::*;
use vstd::string::*;
use vstd::utf8::*;

verus! {

/// A zero-indexed point in a text buffer consisting of a row and column.
#[derive(Clone, Copy, Debug, PartialEq, Eq, Hash, Structural)]
pub struct Point {
    pub row: u32,
    pub column: u32,
}

impl Point {
    pub fn new(row: u32, column: u32) -> (p: Self)
        ensures
            p.row == row,
            p.column == column,
    {
        Point { row, column }
    }
}

impl Default for Point {
    fn default() -> (p: Self)
        ensures
            p.row == 0,
            p.column == 0,
    {
        Point { row: 0, column: 0 }
    }
}

/// Why a query does not suit a grammar.
#[verifier::external_type_specification]
#[verifier::external_body]
pub struct ExQueryError(tree_sitter::QueryError);

/// The names of a query's captures by their numbers; nothing where the query
/// does not suit the grammar.
pub uninterp spec fn capture_names(language: Grammar, query: Seq<char>) -> Option<Seq<Seq<char>>>;

/// The characters of several texts.
pub open spec fn texts(strings: Seq<String>) -> Seq<Seq<char>> {
    strings.map_values(|s: String| s@)
}

/// `tree_sitter::Query::new` and its `capture_names`: whether the query is
/// accepted and what its captures are called depends on the grammar and the
/// query's text alone.
#[verifier::external_body]
fn query_capture_names(language: &Grammar, query: &str) -> (r: Result<
    Vec<String>,
    tree_sitter::QueryError,
>)
    ensures
        match r {
            Ok(names) => capture_names(*language, query@) == Some(texts(names@)),
            Err(_) => capture_names(*language, query@) is None,
        },
{
    let query = tree_sitter::Query::new(language, query)?;
    Ok(query.capture_names().iter().map(|name| name.to_string()).collect())
}

/// A query for the outline of a file, and the numbers of its captures.
#[derive(Debug)]
pub struct OutlineConfig {
    pub query: String,
    pub item_capture_ix: u32,
    pub name_capture_ix: u32,
    pub context_capture_ix: Option<u32>,
    pub extra_context_capture_ix: Option<u32>,
    pub annotation_capture_ix: Option<u32>,
    pub signature_capture_ix: Option<u32>,
}

/// The name of a language.
#[derive(Debug)]
pub struct LanguageName(pub String);

/// A language with its grammar and the queries loaded for it.
pub struct Language {
    pub name: LanguageName,
    pub extensions: Vec<String>,
    pub ts_language: Grammar,
    pub outline_config: Option<OutlineConfig>,
    pub highlights_query: Option<String>,
    pub supports_references: bool,
}

/// Tree-sitter language queries for a given language.
#[derive(Debug)]
pub struct LanguageQueries {
    pub outline: Option<String>,
    pub highlights: Option<String>,
}

/// Which query of a language does not suit its grammar, and why.
#[derive(Debug)]
pub enum LanguageError {
    Outline(tree_sitter::QueryError),
    Highlights(tree_sitter::QueryError),
}

/// The last position, below `n`, of a name, counted modulo the range of `u32`.
pub open spec fn last_index(names: Seq<Seq<char>>, name: Seq<char>, n: nat) -> Option<u32>
    decreases n,
{
    if n == 0 {
        None
    } else if names[n - 1] == name {
        Some((n - 1) as u32)
    } else {
        last_index(names, name, (n - 1) as nat)
    }
}

/// The outline configuration that a query gives: there is one where the query
/// captures both items and names.
pub open spec fn is_outline_config(
    config: Option<OutlineConfig>,
    previous: Option<OutlineConfig>,
    names: Seq<Seq<char>>,
    query: Seq<char>,
) -> bool {
    match (last_index(names, "item"@, names.len()), last_index(names, "name"@, names.len())) {
        (Some(item), Some(name)) => {
            &&& config matches Some(c)
            &&& c.query@ == query
            &&& c.item_capture_ix == item
            &&& c.name_capture_ix == name
            &&& c.context_capture_ix == last_index(names, "context"@, names.len())
            &&& c.extra_context_capture_ix == last_index(names, "context.extra"@, names.len())
            &&& c.annotation_capture_ix == last_index(names, "annotation"@, names.len())
            &&& c.signature_capture_ix == last_index(names, "signature"@, names.len())
        },
        _ => config == previous,
    }
}

/// The number of the last capture of a name.
fn capture_index(names: &Vec<String>, name: &str) -> (r: Option<u32>)
    ensures
        r == last_index(texts(names@), name@, names@.len()),
{
    let mut i: usize = names.len();
    while i > 0
        invariant
            i <= names@.len(),
            last_index(texts(names@), name@, names@.len()) == last_index(
                texts(names@),
                name@,
                i as nat,
            ),
        decreases i,
    {
        assert(texts(names@)[i - 1] == names@[i - 1]@);
        if str_eq(names[i - 1].as_str(), name) {
            let index: u32 = #[verifier::truncate]
            ((i - 1) as u32);
            return Some(index);
        }
        i = i - 1;
    }
    None
}

impl Language {
    /// Whether two languages agree but for their queries.
    pub open spec fn same_grammar(&self, other: &Language) -> bool {
        &&& self.name == other.name
        &&& self.extensions == other.extensions
        &&& self.ts_language == other.ts_language
        &&& self.supports_references == other.supports_references
    }

    /// Adds the queries that are there. The first one that does not suit the
    /// grammar is reported.
    pub fn with_queries(self, queries: LanguageQueries) -> (r: Result<Self, LanguageError>)
        ensures
            match r {
                Ok(language) => {
                    &&& language.same_grammar(&self)
                    &&& match queries.outline {
                        Some(query) => {
                            &&& capture_names(self.ts_language, query@) is Some
                            &&& is_outline_config(
                                language.outline_config,
                                self.outline_config,
                                capture_names(self.ts_language, query@)->0,
                                query@,
                            )
                        },
                        None => language.outline_config == self.outline_config,
                    }
                    &&& match queries.highlights {
                        Some(query) => {
                            &&& capture_names(self.ts_language, query@) is Some
                            &&& language.highlights_query == queries.highlights
                        },
                        None => language.highlights_query == self.highlights_query,
                    }
                },
                Err(LanguageError::Outline(_)) => {
                    &&& queries.outline matches Some(query)
                    &&& capture_names(self.ts_language, query@) is None
                },
                Err(LanguageError::Highlights(_)) => {
                    &&& queries.outline matches Some(query) ==> capture_names(
                        self.ts_language,
                        query@,
                    ) is Some
                    &&& queries.highlights matches Some(query)
                    &&& capture_names(self.ts_language, query@) is None
                },
            },
    {
        let mut language = self;
        if let Some(query) = queries.outline {
            language = match language.with_outline_query(query.as_str()) {
                Ok(language) => language,
                Err(error) => {
                    return Err(LanguageError::Outline(error));
                },
            };
        }
        if let Some(query) = queries.highlights {
            match query_capture_names(&language.ts_language, query.as_str()) {
                Ok(_) => {},
                Err(error) => {
                    return Err(LanguageError::Highlights(error));
                },
            }
            language.highlights_query = Some(query);
        }
        Ok(language)
    }

    /// Adds the outline query.
    pub fn with_outline_query(self, source: &str) -> (r: Result<Self, tree_sitter::QueryError>)
        ensures
            match r {
                Ok(language) => {
                    &&& capture_names(self.ts_language, source@) is Some
                    &&& language.same_grammar(&self)
                    &&& language.highlights_query == self.highlights_query
                    &&& is_outline_config(
                        language.outline_config,
                        self.outline_config,
                        capture_names(self.ts_language, source@)->0,
                        source@,
                    )
                },
                Err(_) => capture_names(self.ts_language, source@) is None,
            },
    {
        let names = match query_capture_names(&self.ts_language, source) {
            Ok(names) => names,
            Err(error) => {
                return Err(error);
            },
        };
        let item = capture_index(&names, "item");
        let name = capture_index(&names, "name");
        let mut language = self;
        if let (Some(item_capture_ix), Some(name_capture_ix)) = (item, name) {
            language.outline_config = Some(
                OutlineConfig {
                    query: source.to_owned(),
                    item_capture_ix,
                    name_capture_ix,
                    context_capture_ix: capture_index(&names, "context"),
                    extra_context_capture_ix: capture_index(&names, "context.extra"),
                    annotation_capture_ix: capture_index(&names, "annotation"),
                    signature_capture_ix: capture_index(&names, "signature"),
                },
            );
        }
        Ok(language)
    }

    /// The number of a capture of the highlights query.
    pub fn capture_id_for_highlight(&self, name: &str) -> (r: Option<u32>)
        ensures
            r == match self.highlights_query {
                Some(query) => match capture_names(self.ts_language, query@) {
                    Some(names) => first_index(names, name@, 0),
                    None => None,
                },
                None => None,
            },
    {
        let query = match &self.highlights_query {
            Some(query) => query,
            None => {
                return None;
            },
        };
        let names = match query_capture_names(&self.ts_language, query.as_str()) {
            Ok(names) => names,
            Err(_) => {
                return None;
            },
        };
        find_index(&names, name)
    }
}

/// The first position of a name, counted modulo the range of `u32`.
pub fn find_index(names: &Vec<String>, name: &str) -> (r: Option<u32>)
    ensures
        r == first_index(texts(names@), name@, 0),
{
    let mut i: usize = 0;
    while i < names.len()
        invariant
            i <= names@.len(),
            first_index(texts(names@), name@, 0) == first_index(
                texts(names@),
                name@,
                i as int,
            ),
        decreases names@.len() - i,
    {
        assert(texts(names@)[i as int] == names@[i as int]@);
        if str_eq(names[i].as_str(), name) {
            let index: u32 = #[verifier::truncate]
            (i as u32);
            return Some(index);
        }
        i = i + 1;
    }
    None
}

/// The first position, from `i` on, of a name, counted modulo the range of
/// `u32`.
pub open spec fn first_index(names: Seq<Seq<char>>, name: Seq<char>, i: int) -> Option<u32>
    decreases names.len() - i,
{
    if i >= names.len() {
        None
    } else if names[i] == name {
        Some(i as u32)
    } else {
        first_index(names, name, i + 1)
    }
}

/// The part of an asset's path below the directory `name`.
pub open spec fn below_directory(path: Seq<u8>, name: Seq<u8>) -> Option<Seq<u8>> {
    if has_prefix(path, name) && path.len() > name.len() && path[name.len() as int] == 0x2f {
        Some(path.subrange(name.len() as int + 1, path.len() as int))
    } else {
        None
    }
}

/// Whether an asset belongs to the query of a language whose file names begin
/// with `prefix`.
pub open spec fn is_query_file(path: Seq<u8>, name: Seq<u8>, prefix: Seq<u8>) -> bool {
    below_directory(path, name) matches Some(file) && has_suffix(file, ".scm".spec_bytes())
        && has_prefix(file, prefix)
}

/// The text of a query: the contents of its files among the first `n` assets,
/// one after another.
pub open spec fn query_text(
    assets: Seq<(String, String)>,
    name: Seq<u8>,
    prefix: Seq<u8>,
    n: nat,
) -> Option<Seq<char>>
    decreases n,
{
    if n == 0 {
        None
    } else {
        let sofar = query_text(assets, name, prefix, (n - 1) as nat);
        if is_query_file(encode_utf8(assets[n - 1].0@), name, prefix) {
            Some((if sofar is Some { sofar->0 } else { Seq::empty() }) + assets[n - 1].1@)
        } else {
            sofar
        }
    }
}

/// An optional text as characters.
pub open spec fn text_of(s: Option<String>) -> Option<Seq<char>> {
    match s {
        Some(s) => Some(s@),
        None => None,
    }
}

/// Appends `contents` to an optional text.
fn append_query(query: Option<String>, contents: &str) -> (r: Option<String>)
    ensures
        text_of(r) == Some(
            (if query is Some { query->0@ } else { Seq::empty() }) + contents@,
        ),
{
    match query {
        Some(query) => {
            let mut query = query;
            query.append(contents);
            Some(query)
        },
        None => {
            assert(Seq::<char>::empty() + contents@ =~= contents@);
            Some(contents.to_owned())
        },
    }
}

/// Collects the queries of a language from assets, given by path and contents.
/// Several files of one query are joined in the order of the assets.
pub fn load_queries(name: &str, assets: &Vec<(String, String)>) -> (r: LanguageQueries)
    ensures
        text_of(r.outline) == query_text(
            assets@,
            name.spec_bytes(),
            "outline".spec_bytes(),
            assets@.len(),
        ),
        text_of(r.highlights) == query_text(
            assets@,
            name.spec_bytes(),
            "highlights".spec_bytes(),
            assets@.len(),
        ),
{
    let mut outline: Option<String> = None;
    let mut highlights: Option<String> = None;
    let mut i: usize = 0;
    while i < assets.len()
        invariant
            i <= assets@.len(),
            text_of(outline) == query_text(
                assets@,
                name.spec_bytes(),
                "outline".spec_bytes(),
                i as nat,
            ),
            text_of(highlights) == query_text(
                assets@,
                name.spec_bytes(),
                "highlights".spec_bytes(),
                i as nat,
            ),
        decreases assets@.len() - i,
    {
        let path = assets[i].0.as_str();
        if let Some(file) = strip_directory(path, name) {
            if ends_with(file, ".scm") {
                if starts_with(file, "outline") {
                    outline = append_query(outline, assets[i].1.as_str());
                }
                if starts_with(file, "highlights") {
                    highlights = append_query(highlights, assets[i].1.as_str());
                }
            }
        }
        i = i + 1;
    }
    LanguageQueries { outline, highlights }
}

/// The part of `path` below the directory `name`.
fn strip_directory<'a>(path: &'a str, name: &str) -> (r: Option<&'a str>)
    ensures
        match r {
            Some(file) => below_directory(path.spec_bytes(), name.spec_bytes()) == Some(
                file.spec_bytes(),
            ),
            None => below_directory(path.spec_bytes(), name.spec_bytes()) is None,
        },
{
    let bytes = path.as_bytes();
    let prefix = name.as_bytes();
    if bytes_at(bytes, prefix, 0) && bytes.len() > prefix.len() && bytes[prefix.len()] == 0x2f {
        proof {
            encode_utf8_valid_utf8(path@);
            lemma_boundary_after_ascii(bytes@, prefix@.len() as int);
            is_char_boundary_start_end_of_seq(bytes@);
        }
        Some(slice(path, prefix.len() + 1, bytes.len()))
    } else {
        None
    }
}

/// The number of a capture is the last position of its name among the names.
pub proof fn law_last_index(names: Seq<Seq<char>>, name: Seq<char>, n: nat)
    requires
        n <= names.len() <= u32::MAX,
    ensures
        match last_index(names, name, n) {
            Some(i) => {
                &&& i < n
                &&& names[i as int] == name
                &&& forall|j: int| i < j < n ==> names[j] != name
            },
            None => forall|j: int| 0 <= j < n ==> names[j] != name,
        },
    decreases n,
{
    if n > 0 && names[n - 1] != name {
        law_last_index(names, name, (n - 1) as nat);
    }
}

/// The number of a name is its first position among the names.
pub proof fn law_first_index(names: Seq<Seq<char>>, name: Seq<char>, from: int)
    requires
        0 <= from,
        names.len() <= u32::MAX,
    ensures
        match first_index(names, name, from) {
            Some(i) => {
                &&& from <= i < names.len()
                &&& names[i as int] == name
                &&& forall|j: int| from <= j < i ==> names[j] != name
            },
            None => forall|j: int| from <= j < names.len() ==> names[j] != name,
        },
    decreases names.len() - from,
{
    if from < names.len() && names[from] != name {
        law_first_index(names, name, from + 1);
    }
}

/// A query's files are those in the language's directory whose names begin with the
/// prefix and end in `.scm`.
pub proof fn law_query_files(name: Seq<u8>, prefix: Seq<u8>, middle: Seq<u8>, path: Seq<u8>)
    ensures
        is_query_file(
            name + seq![0x2fu8] + (prefix + middle + ".scm".spec_bytes()),
            name,
            prefix,
        ),
        is_query_file(path, name, prefix) ==> {
            &&& has_prefix(path, name + seq![0x2fu8] + prefix)
            &&& has_suffix(path, ".scm".spec_bytes())
        },
{
    let ending = ".scm".spec_bytes();
    let file = prefix + middle + ending;
    let whole = name + seq![0x2fu8] + file;
    assert(whole.subrange(0, name.len() as int) =~= name);
    assert(whole.subrange(name.len() as int + 1, whole.len() as int) =~= file);
    assert(file.subrange(0, prefix.len() as int) =~= prefix);
    assert(file.subrange(file.len() - ending.len(), file.len() as int) =~= ending);
    if is_query_file(path, name, prefix) {
        let file = path.subrange(name.len() as int + 1, path.len() as int);
        let start = name + seq![0x2fu8] + prefix;
        assert(path.subrange(0, start.len() as int) =~= start) by {
            assert(path.subrange(0, start.len() as int) =~= path.subrange(0, name.len() as int)
                + seq![path[name.len() as int]] + file.subrange(0, prefix.len() as int));
        }
        assert(path.subrange(path.len() - ending.len(), path.len() as int) =~= file.subrange(
            file.len() - ending.len(),
            file.len() as int,
        ));
    }
}

/// A query is the contents of all its files, one after another in the order of the
/// assets, and there is none only where it has no file.
pub proof fn law_query_is_its_files(
    assets: Seq<(String, String)>,
    name: Seq<u8>,
    prefix: Seq<u8>,
    n: nat,
)
    requires
        n <= assets.len(),
    ensures
        ({
            let files = assets.take(n as int).filter(
                |asset: (String, String)| is_query_file(encode_utf8(asset.0@), name, prefix),
            );
            match query_text(assets, name, prefix, n) {
                Some(text) => files.len() > 0 && text == files.map_values(
                    |asset: (String, String)| asset.1@,
                ).flatten(),
                None => files.len() == 0,
            }
        }),
    decreases n,
{
    reveal(Seq::filter);
    let belongs = |asset: (String, String)| is_query_file(encode_utf8(asset.0@), name, prefix);
    let contents = |asset: (String, String)| asset.1@;
    if n > 0 {
        law_query_is_its_files(assets, name, prefix, (n - 1) as nat);
        let before = assets.take(n - 1).filter(belongs);
        assert(assets.take(n as int).drop_last() =~= assets.take(n - 1));
        if belongs(assets[n - 1]) {
            let files = before.push(assets[n - 1]);
            assert(files.map_values(contents) =~= before.map_values(contents).push(
                assets[n - 1].1@,
            ));
            before.map_values(contents).lemma_flatten_push(assets[n - 1].1@);
            if before.len() == 0 {
                assert(before.map_values(contents) =~= Seq::empty());
                assert(Seq::<Seq<char>>::empty().flatten() =~= Seq::empty());
            }
        }
    }
}

} // verus!
