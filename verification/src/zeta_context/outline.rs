//! The outline of a source file: its items and how they nest.
use crate::stable_sort::{
    law_sort_loses_nothing, law_stable_order, lemma_sorted_items, stable_order, stable_sort,
    stably_sorted,
};
use crate::text::{
    has_prefix, has_suffix, holds, lemma_boundary_in_range, lemma_encode_concat, lemma_holds,
    lemma_holds_itself, line_end, slice, NEWLINE,
};
use crate::zeta_context::identifier_index::IdentifierIndex;
use crate::zeta_context::syntax::{positions, tree_fits, tree_nodes, SyntaxTree};
use crate::zeta_context::treesitter_util::{line_len, row_len, row_start};
use crate::zeta_context::zed_code::{Language, OutlineConfig};
use std::ops::Range;
use tree_sitter::Language as Grammar;
use tree_sitter::{Query, QueryCursor, StreamingIterator, Tree};
use vstd::prelude::*;
use vstd::string::*;
use vstd::utf8::*;

verus! {

/// The number of an outline item.
#[derive(Clone, Copy, Debug, PartialEq, Eq, Hash, Structural)]
pub struct OutlineId(pub u32);

impl OutlineId {
    /// Whether taking the next free number gives `id` and leaves `after` as the
    /// next one.
    pub open spec fn is_taken(before: OutlineId, id: OutlineId, after: OutlineId) -> bool {
        id == before && after.0 == before.0 + 1
    }

    /// Takes the next free number.
    pub fn new_unique(next: &mut OutlineId) -> (id: Self)
        requires
            old(next).0 < u32::MAX,
        ensures
            OutlineId::is_taken(*old(next), id, *final(next)),
    {
        let id = *next;
        next.0 = next.0 + 1;
        id
    }
}

/// Whether `ids` were taken one after another, `next` being the next free number
/// before the first of them and after each.
pub open spec fn is_id_history(next: Seq<OutlineId>, ids: Seq<OutlineId>) -> bool {
    &&& next.len() == ids.len() + 1
    &&& forall|k: int|
        0 <= k < ids.len() ==> OutlineId::is_taken(next[k], #[trigger] ids[k], next[k + 1])
}

/// No number is taken twice, however many are taken.
pub proof fn law_ids_are_unique(next: Seq<OutlineId>, ids: Seq<OutlineId>, i: int, j: int)
    requires
        is_id_history(next, ids),
        0 <= i < j < ids.len(),
    ensures
        ids[i] != ids[j],
{
    lemma_ids_ascend(next, ids, i, j);
}

proof fn lemma_ids_ascend(next: Seq<OutlineId>, ids: Seq<OutlineId>, i: int, j: int)
    requires
        is_id_history(next, ids),
        0 <= i < j < ids.len(),
    ensures
        ids[i].0 < ids[j].0,
    decreases j - i,
{
    assert(OutlineId::is_taken(next[j - 1], ids[j - 1], next[j - 1 + 1]));
    assert(OutlineId::is_taken(next[j], ids[j], next[j + 1]));
    if i < j - 1 {
        lemma_ids_ascend(next, ids, i, j - 1);
    }
}

/// What a match of an outline query stands for.
#[derive(Debug)]
pub enum OutlineQueryResult {
    Item(OutlineItem),
    Annotation(Range<usize>),
}

/// An item of an outline.
#[derive(Debug)]
pub struct OutlineItem {
    pub id: OutlineId,
    /// The items around this one, the outermost first.
    pub parents: Vec<OutlineId>,
    pub name_range: Range<usize>,
    pub item_range: Range<usize>,
    pub signature_range: Range<usize>,
    pub concise_text: String,
}

/// A node that a query captured.
#[derive(Clone, Copy, Debug, PartialEq, Eq, Structural)]
pub struct Capture {
    /// The number of the capture in the query.
    pub index: u32,
    pub start_byte: usize,
    pub end_byte: usize,
    pub start_row: usize,
    pub start_column: usize,
    pub end_row: usize,
}

/// The matches of a grammar's query in a tree over a text, in the order in which they
/// are found; nothing where the grammar refuses the query.
pub uninterp spec fn query_matches(
    language: Grammar,
    query: Seq<char>,
    tree: Tree,
    source: Seq<char>,
) -> Option<Seq<Seq<Capture>>>;

/// The captures of each match.
pub open spec fn captures_of(matches: Seq<Vec<Capture>>) -> Seq<Seq<Capture>> {
    matches.map_values(|captures: Vec<Capture>| captures@)
}

/// `tree_sitter::QueryCursor::matches` of a compiled query over the root of a tree: the
/// captures of each match are a function of the grammar, the query's text, the tree and
/// the source, and there are none where the query compiler refuses. The query may ask
/// for the text of any node, so every node lies in the source.
#[verifier::external_body]
fn find_matches(language: &Grammar, query: &str, tree: &Tree, source: &str) -> (r: Option<
    Vec<Vec<Capture>>,
>)
    requires
        tree_fits(tree_nodes(*tree), source.spec_bytes()),
    ensures
        match r {
            Some(matches) => query_matches(*language, query@, *tree, source@) == Some(
                captures_of(matches@),
            ),
            None => query_matches(*language, query@, *tree, source@) is None,
        },
{
    let query = Query::new(language, query).ok()?;
    let mut cursor = QueryCursor::new();
    let mut found = cursor.matches(&query, tree.root_node(), source.as_bytes());
    let mut matches = Vec::new();
    while let Some(m) = found.next() {
        matches.push(m.captures.iter().map(|c| {
            let r = c.node.range();
            Capture { index: c.index, start_byte: r.start_byte, end_byte: r.end_byte, start_row:
                r.start_point.row, start_column: r.start_point.column, end_row: r.end_point.row }
        }).collect());
    }
    Some(matches)
}

/// What a capture contributes to an item.
pub enum Role {
    Annotation,
    Name,
    Context,
    Signature,
    Item,
    Other,
}

/// The role of the captures of a number. The first of the configured numbers
/// that it equals decides.
pub open spec fn role(config: &OutlineConfig, index: u32) -> Role {
    if Some(index) == config.annotation_capture_ix {
        Role::Annotation
    } else if index == config.name_capture_ix {
        Role::Name
    } else if Some(index) == config.context_capture_ix || Some(index)
        == config.extra_context_capture_ix {
        Role::Context
    } else if Some(index) == config.signature_capture_ix {
        Role::Signature
    } else if index == config.item_capture_ix {
        Role::Item
    } else {
        Role::Other
    }
}

/// Whether captures of a role belong to the signature.
pub open spec fn in_signature(role: Role) -> bool {
    role is Name || role is Context || role is Signature
}

/// Whether captures of a role belong to the concise text.
pub open spec fn in_concise_text(role: Role) -> bool {
    role is Name || role is Context
}

/// The range of the last capture with a role.
pub open spec fn last_with_role(
    captures: Seq<Capture>,
    config: &OutlineConfig,
    wanted: Role,
) -> Option<(usize, usize)>
    decreases captures.len(),
{
    if captures.len() == 0 {
        None
    } else if role(config, captures.last().index) == wanted {
        Some((captures.last().start_byte, captures.last().end_byte))
    } else {
        last_with_role(captures.drop_last(), config, wanted)
    }
}

/// Where the first and where the last capture of the signature start and end.
pub open spec fn signature_span(captures: Seq<Capture>, config: &OutlineConfig) -> Option<
    (usize, usize),
>
    decreases captures.len(),
{
    if captures.len() == 0 {
        None
    } else {
        let before = signature_span(captures.drop_last(), config);
        if in_signature(role(config, captures.last().index)) {
            match before {
                Some((start, _)) => Some((start, captures.last().end_byte)),
                None => Some((captures.last().start_byte, captures.last().end_byte)),
            }
        } else {
            before
        }
    }
}

/// Where the first line of a captured node ends.
pub open spec fn first_line_end(bytes: Seq<u8>, capture: Capture) -> int {
    if capture.end_row > capture.start_row {
        capture.start_byte + row_len(bytes, capture.start_row as u32 as nat)
            - capture.start_column
    } else {
        capture.end_byte as int
    }
}

/// Whether a capture lies in the text, as does the end of its first line.
pub open spec fn capture_fits(bytes: Seq<u8>, capture: Capture) -> bool {
    &&& is_char_boundary(bytes, capture.start_byte as int)
    &&& is_char_boundary(bytes, capture.end_byte as int)
    &&& is_char_boundary(bytes, first_line_end(bytes, capture))
    &&& capture.start_byte <= capture.end_byte
}

/// The first lines of the named and context captures, with a blank where text
/// lies between two of them, and where the last of them ends.
pub open spec fn concise(bytes: Seq<u8>, captures: Seq<Capture>, config: &OutlineConfig) -> (
    Seq<u8>,
    Option<int>,
)
    decreases captures.len(),
{
    if captures.len() == 0 {
        (Seq::empty(), None)
    } else {
        let (text, last_end) = concise(bytes, captures.drop_last(), config);
        let capture = captures.last();
        let end = first_line_end(bytes, capture);
        if in_concise_text(role(config, capture.index)) && capture.start_byte < end {
            let blank = if last_end is Some && capture.start_byte > last_end->0 {
                seq![0x20u8]
            } else {
                Seq::empty()
            };
            (text + blank + bytes.subrange(capture.start_byte as int, end), Some(end))
        } else {
            (text, last_end)
        }
    }
}

/// Whether an item, apart from its number and its parents, is what the
/// captures of a match describe.
pub open spec fn describes_item(
    item: OutlineItem,
    bytes: Seq<u8>,
    captures: Seq<Capture>,
    config: &OutlineConfig,
) -> bool {
    &&& last_with_role(captures, config, Role::Name) == Some(
        (item.name_range.start, item.name_range.end),
    )
    &&& last_with_role(captures, config, Role::Item) == Some(
        (item.item_range.start, item.item_range.end),
    )
    &&& signature_span(captures, config) == Some(
        (item.signature_range.start, item.signature_range.end),
    )
    &&& encode_utf8(item.concise_text@) == concise(bytes, captures, config).0
}

/// Whether the captures of a match describe an item at all.
pub open spec fn is_item(captures: Seq<Capture>, config: &OutlineConfig) -> bool {
    &&& last_with_role(captures, config, Role::Annotation) is None
    &&& last_with_role(captures, config, Role::Name) is Some
    &&& last_with_role(captures, config, Role::Item) is Some
    &&& signature_span(captures, config) is Some
}

/// Tests whether a capture lies in the text.
fn check_capture(source: &str, capture: &Capture) -> (r: bool)
    requires
        source.spec_bytes().len() <= u32::MAX,
    ensures
        r == capture_fits(source.spec_bytes(), *capture),
{
    if capture.start_byte > capture.end_byte || !source.is_char_boundary(capture.start_byte)
        || !source.is_char_boundary(capture.end_byte) {
        return false;
    }
    if capture.end_row <= capture.start_row {
        return true;
    }
    proof {
        encode_utf8_valid_utf8(source@);
    }
    let row: u32 = #[verifier::truncate]
    (capture.start_row as u32);
    let len = line_len(source, row);
    let total: u64 = capture.start_byte as u64 + len as u64;
    if total < capture.start_column as u64 {
        return false;
    }
    let end: u64 = total - capture.start_column as u64;
    end <= source.as_bytes().len() as u64 && source.is_char_boundary(end as usize)
}

/// Whether every capture of every match lies in the text.
pub open spec fn matches_fit(bytes: Seq<u8>, matches: Seq<Seq<Capture>>) -> bool {
    forall|m: int, k: int|
        0 <= m < matches.len() && 0 <= k < matches[m].len() ==> capture_fits(
            bytes,
            #[trigger] matches[m][k],
        )
}

impl OutlineItem {
    /// The item's name in the text.
    pub fn name<'a>(&self, source: &'a str) -> (r: &'a str)
        requires
            self.name_range.start <= self.name_range.end,
            is_char_boundary(source.spec_bytes(), self.name_range.start as int),
            is_char_boundary(source.spec_bytes(), self.name_range.end as int),
        ensures
            r.spec_bytes() == source.spec_bytes().subrange(
                self.name_range.start as int,
                self.name_range.end as int,
            ),
    {
        slice(source, self.name_range.start, self.name_range.end)
    }

    /// The whole item in the text.
    pub fn item<'a>(&self, source: &'a str) -> (r: &'a str)
        requires
            self.item_range.start <= self.item_range.end,
            is_char_boundary(source.spec_bytes(), self.item_range.start as int),
            is_char_boundary(source.spec_bytes(), self.item_range.end as int),
        ensures
            r.spec_bytes() == source.spec_bytes().subrange(
                self.item_range.start as int,
                self.item_range.end as int,
            ),
    {
        slice(source, self.item_range.start, self.item_range.end)
    }

    /// The item's signature in the text.
    pub fn signature<'a>(&self, source: &'a str) -> (r: &'a str)
        requires
            self.signature_range.start <= self.signature_range.end,
            is_char_boundary(source.spec_bytes(), self.signature_range.start as int),
            is_char_boundary(source.spec_bytes(), self.signature_range.end as int),
        ensures
            r.spec_bytes() == source.spec_bytes().subrange(
                self.signature_range.start as int,
                self.signature_range.end as int,
            ),
    {
        slice(source, self.signature_range.start, self.signature_range.end)
    }
}

impl OutlineQueryResult {
    /// Reads a match: an annotation where one is captured, otherwise an item
    /// where its name, its extent and its signature are. Any match that is no
    /// annotation uses up a number.
    pub fn from_match(
        source: &str,
        captures: &Vec<Capture>,
        config: &OutlineConfig,
        next_id: &mut OutlineId,
    ) -> (r: Option<Self>)
        requires
            old(next_id).0 < u32::MAX,
            forall|k: int|
                0 <= k < captures@.len() ==> capture_fits(
                    source.spec_bytes(),
                    #[trigger] captures@[k],
                ),
        ensures
            match r {
                Some(OutlineQueryResult::Annotation(range)) => {
                    &&& last_with_role(captures@, config, Role::Annotation) == Some(
                        (range.start, range.end),
                    )
                    &&& *final(next_id) == *old(next_id)
                },
                Some(OutlineQueryResult::Item(item)) => {
                    &&& is_item(captures@, config)
                    &&& describes_item(item, source.spec_bytes(), captures@, config)
                    &&& item.id == *old(next_id)
                    &&& item.parents@ == Seq::<OutlineId>::empty()
                    &&& final(next_id).0 == old(next_id).0 + 1
                },
                None => {
                    &&& last_with_role(captures@, config, Role::Annotation) is None
                    &&& !is_item(captures@, config)
                    &&& final(next_id).0 == old(next_id).0 + 1
                },
            },
    {
        let ghost bytes = source.spec_bytes();
        let mut annotation_range: Option<(usize, usize)> = None;
        let mut name_range: Option<(usize, usize)> = None;
        let mut item_range: Option<(usize, usize)> = None;
        let mut signature: Option<(usize, usize)> = None;
        let mut concise_text = String::new();
        let mut last_concise_text_end: Option<usize> = None;
        let mut k: usize = 0;
        assert(captures@.take(0) =~= Seq::<Capture>::empty());
        assert(encode_utf8(concise_text@) =~= Seq::<u8>::empty());
        while k < captures.len()
            invariant
                k <= captures@.len(),
                bytes == source.spec_bytes(),
                forall|k: int|
                    0 <= k < captures@.len() ==> capture_fits(bytes, #[trigger] captures@[k]),
                annotation_range == last_with_role(
                    captures@.take(k as int),
                    config,
                    Role::Annotation,
                ),
                name_range == last_with_role(captures@.take(k as int), config, Role::Name),
                item_range == last_with_role(captures@.take(k as int), config, Role::Item),
                signature == signature_span(captures@.take(k as int), config),
                encode_utf8(concise_text@) == concise(bytes, captures@.take(k as int), config).0,
                match last_concise_text_end {
                    Some(end) => concise(bytes, captures@.take(k as int), config).1 == Some(
                        end as int,
                    ),
                    None => concise(bytes, captures@.take(k as int), config).1 is None,
                },
            decreases captures@.len() - k,
        {
            let capture = captures[k];
            let ghost before = captures@.take(k as int);
            assert(captures@.take(k + 1).drop_last() =~= before);
            assert(captures@.take(k + 1).last() == capture);
            assert(capture_fits(bytes, captures@[k as int]));
            let range = (capture.start_byte, capture.end_byte);
            let mut included_in_signature = false;
            let mut included_in_concise_text = false;
            if is_index(capture.index, config.annotation_capture_ix) {
                annotation_range = Some(range);
            } else if capture.index == config.name_capture_ix {
                name_range = Some(range);
                included_in_signature = true;
                included_in_concise_text = true;
            } else if is_index(capture.index, config.context_capture_ix) || is_index(
                capture.index,
                config.extra_context_capture_ix,
            ) {
                included_in_signature = true;
                included_in_concise_text = true;
            } else if is_index(capture.index, config.signature_capture_ix) {
                included_in_signature = true;
            } else if capture.index == config.item_capture_ix {
                item_range = Some(range);
            }
            if included_in_signature {
                signature = match signature {
                    Some((start, _)) => Some((start, capture.end_byte)),
                    None => Some((capture.start_byte, capture.end_byte)),
                };
            }
            if included_in_concise_text {
                let end = Self::first_line_end(source, &capture);
                if capture.start_byte < end {
                    let ghost text = encode_utf8(concise_text@);
                    let ghost mut blank: Seq<u8> = Seq::empty();
                    if let Some(last_end) = last_concise_text_end {
                        if capture.start_byte > last_end {
                            let ghost chars = concise_text@;
                            concise_text.append(" ");
                            proof {
                                reveal_strlit(" ");
                                lemma_encode_concat(chars, " "@);
                                vstd::string::is_ascii_spec_bytes(" ");
                                assert(" ".is_ascii());
                                blank = " ".spec_bytes();
                                assert(blank =~= seq![0x20u8]);
                            }
                        }
                    }
                    assert(encode_utf8(concise_text@) =~= text + blank);
                    last_concise_text_end = Some(end);
                    let piece = slice(source, capture.start_byte, end);
                    proof {
                        lemma_encode_concat(concise_text@, piece@);
                    }
                    concise_text.append(piece);
                }
            }
            k = k + 1;
        }
        assert(captures@.take(k as int) =~= captures@);
        if let Some((start, end)) = annotation_range {
            return Some(OutlineQueryResult::Annotation(start..end));
        }
        let id = OutlineId::new_unique(next_id);
        match (name_range, item_range, signature) {
            (Some(name), Some(item), Some(signature)) => Some(
                OutlineQueryResult::Item(
                    OutlineItem {
                        id,
                        parents: Vec::new(),
                        name_range: name.0..name.1,
                        item_range: item.0..item.1,
                        signature_range: signature.0..signature.1,
                        concise_text,
                    },
                ),
            ),
            _ => None,
        }
    }

    /// Where the first line of a captured node ends.
    fn first_line_end(source: &str, capture: &Capture) -> (end: usize)
        requires
            capture_fits(source.spec_bytes(), *capture),
        ensures
            end == first_line_end(source.spec_bytes(), *capture),
    {
        if capture.end_row > capture.start_row {
            let row: u32 = #[verifier::truncate]
            (capture.start_row as u32);
            let len = line_len(source, row);
            proof {
                encode_utf8_valid_utf8(source@);
            }
            let total: usize = source.as_bytes().len();
            assert(first_line_end(source.spec_bytes(), *capture) <= total);
            if len >= capture.start_column {
                capture.start_byte + (len - capture.start_column)
            } else {
                capture.start_byte - (capture.start_column - len)
            }
        } else {
            capture.end_byte
        }
    }
}

/// Whether a number is the configured one.
fn is_index(index: u32, configured: Option<u32>) -> (r: bool)
    ensures
        r == (Some(index) == configured),
{
    match configured {
        Some(configured) => index == configured,
        None => false,
    }
}

/// The number of matches among the first `m` that use up a number.
pub open spec fn numbers_used(
    matches: Seq<Seq<Capture>>,
    config: &OutlineConfig,
    m: int,
) -> nat
    decreases m,
{
    if m <= 0 {
        0
    } else {
        numbers_used(matches, config, m - 1) + if last_with_role(
            matches[m - 1],
            config,
            Role::Annotation,
        ) is None {
            1nat
        } else {
            0nat
        }
    }
}

/// The matches among the first `n` that describe items.
pub open spec fn item_matches(
    matches: Seq<Seq<Capture>>,
    config: &OutlineConfig,
    n: nat,
) -> Seq<int>
    decreases n,
{
    if n == 0 {
        Seq::empty()
    } else {
        let before = item_matches(matches, config, (n - 1) as nat);
        if is_item(matches[n - 1], config) {
            before.push(n - 1)
        } else {
            before
        }
    }
}

/// Where the items of some matches start.
pub open spec fn item_starts(
    matches: Seq<Seq<Capture>>,
    config: &OutlineConfig,
    found: Seq<int>,
) -> Seq<usize> {
    found.map_values(|m: int| (last_with_role(matches[m], config, Role::Item)->0).0)
}

/// The matches that describe items, in the order in which the items start.
pub open spec fn outline_order(matches: Seq<Seq<Capture>>, config: &OutlineConfig) -> Seq<int> {
    let found = item_matches(matches, config, matches.len());
    stably_sorted(found, item_starts(matches, config, found))
}

/// What remains of open items once those at its end are closed that end at or
/// before `start`.
pub open spec fn still_open(open: Seq<int>, ends: Seq<int>, start: int) -> Seq<int>
    decreases open.len(),
{
    if open.len() > 0 && start >= ends[open.last()] {
        still_open(open.drop_last(), ends, start)
    } else {
        open
    }
}

/// The earlier items that are open where item `i` starts, the outermost first.
pub open spec fn open_items(starts: Seq<int>, ends: Seq<int>, i: int) -> Seq<int>
    decreases i,
{
    if i <= 0 {
        Seq::empty()
    } else {
        still_open(open_items(starts, ends, i - 1).push(i - 1), ends, starts[i])
    }
}

/// Where items start.
pub open spec fn starts_of(items: Seq<OutlineItem>) -> Seq<int> {
    items.map_values(|item: OutlineItem| item.item_range.start as int)
}

/// Where items end.
pub open spec fn ends_of(items: Seq<OutlineItem>) -> Seq<int> {
    items.map_values(|item: OutlineItem| item.item_range.end as int)
}

/// The numbers of the items at some positions.
pub open spec fn ids_at(items: Seq<OutlineItem>, at: Seq<int>) -> Seq<OutlineId> {
    at.map_values(|i: int| items[i].id)
}

/// Whether `items` is the outline that matches describe: the described items
/// by their starts, each with the number that its match took and with the
/// items that are open around it as its parents.
pub open spec fn is_outline(
    items: Seq<OutlineItem>,
    bytes: Seq<u8>,
    matches: Seq<Seq<Capture>>,
    config: &OutlineConfig,
    first_id: int,
) -> bool {
    let order = outline_order(matches, config);
    &&& items.len() == order.len()
    &&& forall|a: int|
        0 <= a < items.len() ==> {
            &&& describes_item(#[trigger] items[a], bytes, matches[order[a]], config)
            &&& items[a].id.0 == first_id + numbers_used(matches, config, order[a])
            &&& items[a].parents@ == ids_at(
                items,
                open_items(starts_of(items), ends_of(items), a),
            )
        }
}

/// Whether two items differ at most in their parents.
spec fn same_but_parents(a: OutlineItem, b: OutlineItem) -> bool {
    &&& a.id == b.id
    &&& a.name_range == b.name_range
    &&& a.item_range == b.item_range
    &&& a.signature_range == b.signature_range
    &&& a.concise_text == b.concise_text
}

/// The positions among the open items are those of earlier items.
proof fn lemma_still_open(open: Seq<int>, ends: Seq<int>, start: int)
    ensures
        still_open(open, ends, start).len() <= open.len(),
        still_open(open, ends, start) == open.take(still_open(open, ends, start).len() as int),
    decreases open.len(),
{
    if open.len() > 0 && start >= ends[open.last()] {
        let shorter = open.drop_last();
        lemma_still_open(shorter, ends, start);
        let n = still_open(shorter, ends, start).len();
        assert(shorter.take(n as int) =~= open.take(n as int));
    } else {
        assert(open.take(open.len() as int) =~= open);
    }
}

proof fn lemma_open_items(starts: Seq<int>, ends: Seq<int>, i: int)
    ensures
        forall|k: int|
            0 <= k < open_items(starts, ends, i).len() ==> 0 <= #[trigger] open_items(
                starts,
                ends,
                i,
            )[k] < i,
    decreases i,
{
    if i > 0 {
        lemma_open_items(starts, ends, i - 1);
        let open = open_items(starts, ends, i - 1).push(i - 1);
        lemma_still_open(open, ends, starts[i]);
    }
}

/// Builds the outline that the matches of a query describe.
pub fn outline_from_matches(
    source: &str,
    matches: &Vec<Vec<Capture>>,
    config: &OutlineConfig,
    next_id: &mut OutlineId,
) -> (items: Vec<OutlineItem>)
    requires
        matches_fit(source.spec_bytes(), captures_of(matches@)),
        old(next_id).0 + matches@.len() <= u32::MAX,
    ensures
        is_outline(
            items@,
            source.spec_bytes(),
            captures_of(matches@),
            config,
            old(next_id).0 as int,
        ),
        final(next_id).0 == old(next_id).0 + numbers_used(
            captures_of(matches@),
            config,
            matches@.len() as int,
        ),
{
    let ghost bytes = source.spec_bytes();
    let ghost all = captures_of(matches@);
    let ghost first_id = next_id.0 as int;
    let mut items: Vec<OutlineItem> = Vec::new();
    let mut keys: Vec<usize> = Vec::new();
    let mut m: usize = 0;
    while m < matches.len()
        invariant
            m <= matches@.len(),
            bytes == source.spec_bytes(),
            all == captures_of(matches@),
            matches_fit(bytes, all),
            first_id + matches@.len() <= u32::MAX,
            next_id.0 == first_id + numbers_used(all, config, m as int),
            numbers_used(all, config, m as int) <= m,
            items@.len() == item_matches(all, config, m as nat).len(),
            keys@ == item_starts(all, config, item_matches(all, config, m as nat)),
            forall|k: int|
                0 <= k < items@.len() ==> {
                    let im = item_matches(all, config, m as nat)[k];
                    &&& describes_item(#[trigger] items@[k], bytes, all[im], config)
                    &&& items@[k].id.0 == first_id + numbers_used(all, config, im)
                },
        decreases matches@.len() - m,
    {
        let ghost found = item_matches(all, config, m as nat);
        let ghost items_before = items@;
        assert(all[m as int] == matches@[m as int]@);
        assert forall|k: int| 0 <= k < matches@[m as int]@.len() implies capture_fits(
            bytes,
            #[trigger] matches@[m as int]@[k],
        ) by {
            assert(capture_fits(bytes, all[m as int][k]));
        }
        if let Some(result) = OutlineQueryResult::from_match(source, &matches[m], config, next_id) {
            if let OutlineQueryResult::Item(item) = result {
                keys.push(item.item_range.start);
                items.push(item);
                assert(keys@ =~= item_starts(all, config, found.push(m as int)));
            }
        }
        proof {
            let now = item_matches(all, config, (m + 1) as nat);
            assert forall|k: int| 0 <= k < items@.len() implies ({
                let im = now[k];
                &&& describes_item(#[trigger] items@[k], bytes, all[im], config)
                &&& items@[k].id.0 == first_id + numbers_used(all, config, im)
            }) by {
                if k < items_before.len() {
                    assert(items@[k] == items_before[k]);
                    assert(now[k] == found[k]);
                }
            }
        }
        m = m + 1;
    }
    let ghost unsorted = items@;
    let ghost found = item_matches(all, config, all.len());
    let ghost starts = keys@;
    stable_sort(&mut items, &mut keys);
    let ghost sorted = items@;
    let ghost order = outline_order(all, config);
    proof {
        lemma_sorted_items(unsorted, starts);
        lemma_sorted_items(found, starts);
        assert forall|a: int| 0 <= a < sorted.len() implies describes_item(
            #[trigger] sorted[a],
            bytes,
            all[order[a]],
            config,
        ) && sorted[a].id.0 == first_id + numbers_used(all, config, order[a]) by {
            let k = crate::stable_sort::stable_order(starts, starts.len())[a];
            assert(sorted[a] == unsorted[k]);
            assert(order[a] == found[k]);
        }
    }
    let ghost item_starts = starts_of(sorted);
    let ghost item_ends = ends_of(sorted);
    let mut stack: Vec<usize> = Vec::new();
    let mut i: usize = 0;
    assert(positions(stack@) =~= Seq::<int>::empty());
    while i < items.len()
        invariant
            i <= items@.len(),
            items@.len() == sorted.len(),
            item_starts == starts_of(sorted),
            item_ends == ends_of(sorted),
            i == 0 ==> positions(stack@) == Seq::<int>::empty(),
            i > 0 ==> positions(stack@) == open_items(item_starts, item_ends, i - 1).push(i - 1),
            forall|k: int| 0 <= k < stack@.len() ==> #[trigger] stack@[k] < i,
            forall|a: int|
                0 <= a < sorted.len() ==> same_but_parents(#[trigger] items@[a], sorted[a]),
            forall|a: int|
                0 <= a < i ==> (#[trigger] items@[a]).parents@ == ids_at(
                    sorted,
                    open_items(item_starts, item_ends, a),
                ),
        decreases items@.len() - i,
    {
        let start: usize = items[i].item_range.start;
        assert(start == item_starts[i as int]) by {
            assert(same_but_parents(items@[i as int], sorted[i as int]));
        }
        let ghost full = positions(stack@);
        while stack.len() > 0 && start >= items[stack[stack.len() - 1]].item_range.end
            invariant
                i < items@.len(),
                items@.len() == sorted.len(),
                item_ends == ends_of(sorted),
                start == item_starts[i as int],
                still_open(full, item_ends, start as int) == still_open(
                    positions(stack@),
                    item_ends,
                    start as int,
                ),
                forall|k: int| 0 <= k < stack@.len() ==> #[trigger] stack@[k] < i,
                forall|a: int|
                    0 <= a < sorted.len() ==> same_but_parents(#[trigger] items@[a], sorted[a]),
            decreases stack@.len(),
        {
            let ghost before = stack@;
            let top = stack[stack.len() - 1];
            assert(same_but_parents(items@[top as int], sorted[top as int]));
            assert(positions(before).last() == top as int);
            stack.pop();
            assert(positions(stack@) =~= positions(before).drop_last());
        }
        proof {
            if stack@.len() > 0 {
                let top = stack@[stack@.len() - 1];
                assert(same_but_parents(items@[top as int], sorted[top as int]));
                assert(positions(stack@).last() == top as int);
            }
            assert(positions(stack@) == open_items(item_starts, item_ends, i as int));
        }
        let mut parents: Vec<OutlineId> = Vec::new();
        let mut k: usize = 0;
        while k < stack.len()
            invariant
                k <= stack@.len(),
                i < items@.len(),
                items@.len() == sorted.len(),
                forall|k: int| 0 <= k < stack@.len() ==> #[trigger] stack@[k] < i,
                forall|a: int|
                    0 <= a < sorted.len() ==> same_but_parents(#[trigger] items@[a], sorted[a]),
                parents@ == ids_at(sorted, positions(stack@).take(k as int)),
            decreases stack@.len() - k,
        {
            let at = stack[k];
            assert(same_but_parents(items@[at as int], sorted[at as int]));
            parents.push(items[at].id);
            assert(parents@ =~= ids_at(sorted, positions(stack@).take(k + 1)));
            k = k + 1;
        }
        assert(positions(stack@).take(k as int) =~= positions(stack@));
        items[i].parents = parents;
        let ghost open = positions(stack@);
        stack.push(i);
        assert(positions(stack@) =~= open.push(i as int));
        i = i + 1;
    }
    proof {
        assert(starts_of(items@) =~= item_starts) by {
            assert forall|a: int| 0 <= a < sorted.len() implies starts_of(items@)[a]
                == item_starts[a] by {
                assert(same_but_parents(items@[a], sorted[a]));
            }
        }
        assert(ends_of(items@) =~= item_ends) by {
            assert forall|a: int| 0 <= a < sorted.len() implies ends_of(items@)[a]
                == item_ends[a] by {
                assert(same_but_parents(items@[a], sorted[a]));
            }
        }
        assert forall|a: int| 0 <= a < items@.len() implies {
            &&& describes_item(#[trigger] items@[a], bytes, all[order[a]], config)
            &&& items@[a].id.0 == first_id + numbers_used(all, config, order[a])
            &&& items@[a].parents@ == ids_at(
                items@,
                open_items(starts_of(items@), ends_of(items@), a),
            )
        } by {
            assert(same_but_parents(items@[a], sorted[a]));
            let open = open_items(item_starts, item_ends, a);
            lemma_open_items(item_starts, item_ends, a);
            assert(ids_at(sorted, open) =~= ids_at(items@, open)) by {
                assert forall|k: int| 0 <= k < open.len() implies sorted[#[trigger] open[k]].id
                    == items@[open[k]].id by {
                    assert(0 <= open[k] < a);
                    assert(same_but_parents(items@[open[k]], sorted[open[k]]));
                }
            }
        }
    }
    items
}

/// Whether the matches of a query can be turned into an outline: the query
/// ran, its captures lie in the text, and enough numbers are left.
pub open spec fn usable(
    matches: Option<Seq<Seq<Capture>>>,
    bytes: Seq<u8>,
    next_id: OutlineId,
) -> bool {
    &&& bytes.len() <= u32::MAX
    &&& matches matches Some(found)
    &&& matches_fit(bytes, found)
    &&& next_id.0 + found.len() <= u32::MAX
}

/// Tests whether every capture lies in the text.
fn check_matches(source: &str, matches: &Vec<Vec<Capture>>) -> (r: bool)
    requires
        source.spec_bytes().len() <= u32::MAX,
    ensures
        r == matches_fit(source.spec_bytes(), captures_of(matches@)),
{
    let ghost bytes = source.spec_bytes();
    let ghost all = captures_of(matches@);
    let mut m: usize = 0;
    while m < matches.len()
        invariant
            m <= matches@.len(),
            bytes == source.spec_bytes(),
            bytes.len() <= u32::MAX,
            all == captures_of(matches@),
            forall|n: int, k: int|
                0 <= n < m && 0 <= k < all[n].len() ==> capture_fits(bytes, #[trigger] all[n][k]),
        decreases matches@.len() - m,
    {
        let captures = &matches[m];
        assert(all[m as int] == captures@);
        let mut k: usize = 0;
        while k < captures.len()
            invariant
                k <= captures@.len(),
                m < all.len(),
                all == captures_of(matches@),
                all[m as int] == captures@,
                bytes == source.spec_bytes(),
                bytes.len() <= u32::MAX,
                forall|j: int| 0 <= j < k ==> capture_fits(bytes, #[trigger] captures@[j]),
            decreases captures@.len() - k,
        {
            if !check_capture(source, &captures[k]) {
                assert(!capture_fits(bytes, all[m as int][k as int]));
                return false;
            }
            k = k + 1;
        }
        m = m + 1;
    }
    true
}

/// The next free number after the outline of a text took its numbers.
pub open spec fn id_after_outline(
    language: &Language,
    tree: &SyntaxTree,
    source: &str,
    next_id: OutlineId,
) -> int {
    match language.outline_config {
        None => next_id.0 as int,
        Some(config) => {
            let matches = query_matches(
                language.ts_language,
                config.query@,
                tree.parsed,
                source@,
            );
            if usable(matches, source.spec_bytes(), next_id) {
                next_id.0 + numbers_used(matches->0, &config, (matches->0).len() as int)
            } else {
                next_id.0 as int
            }
        },
    }
}

/// The outline of a text, by the tree over it: empty for a language without an outline
/// query, and nothing where the query's matches cannot be used.
pub fn query_outline_items(
    language: &Language,
    tree: &SyntaxTree,
    source: &str,
    next_id: &mut OutlineId,
) -> (r: Option<Vec<OutlineItem>>)
    requires
        tree.is_over(source),
    ensures
        match language.outline_config {
            None => r is Some && r->0@.len() == 0,
            Some(config) => {
                let matches = query_matches(
                    language.ts_language,
                    config.query@,
                    tree.parsed,
                    source@,
                );
                if usable(matches, source.spec_bytes(), *old(next_id)) {
                    &&& r is Some
                    &&& is_outline(
                        r->0@,
                        source.spec_bytes(),
                        matches->0,
                        &config,
                        old(next_id).0 as int,
                    )
                } else {
                    r is None
                }
            },
        },
        final(next_id).0 == id_after_outline(language, tree, source, *old(next_id)),
{
    let config = match &language.outline_config {
        Some(config) => config,
        None => {
            return Some(Vec::new());
        },
    };
    if source.as_bytes().len() as u64 > 0xffff_ffff {
        return None;
    }
    let matches = match find_matches(
        &language.ts_language,
        config.query.as_str(),
        &tree.parsed,
        source,
    ) {
        Some(matches) => matches,
        None => {
            return None;
        },
    };
    if !check_matches(source, &matches) || matches.len() as u64 > (0xffff_ffff - next_id.0) as u64 {
        return None;
    }
    Some(outline_from_matches(source, &matches, config, next_id))
}

impl OutlineItem {
    /// Whether every parent is in the index.
    pub open spec fn parents_known(&self, index: &IdentifierIndex) -> bool {
        forall|k: int|
            0 <= k < self.parents@.len() ==> index.located(#[trigger] self.parents@[k]) is Some
    }

    /// The texts of the first `n` parents, each followed by a bullet.
    pub open spec fn parent_texts(&self, index: &IdentifierIndex, n: nat) -> Seq<char>
        decreases n,
    {
        if n == 0 {
            Seq::empty()
        } else {
            self.parent_texts(index, (n - 1) as nat) + index.item_of(
                self.parents@[n - 1],
            ).concise_text@ + " • "@
        }
    }

    /// The concise texts of the parents and of the item itself, separated by
    /// bullets.
    pub fn path_string(&self, index: &IdentifierIndex) -> (s: String)
        requires
            self.parents_known(index),
        ensures
            s@ == self.parent_texts(index, self.parents@.len()) + self.concise_text@,
    {
        let mut s = String::new();
        let mut k: usize = 0;
        while k < self.parents.len()
            invariant
                k <= self.parents@.len(),
                self.parents_known(index),
                s@ == self.parent_texts(index, k as nat),
            decreases self.parents@.len() - k,
        {
            assert(index.located(self.parents@[k as int]) is Some);
            if let Some((f, i)) = index.locate(self.parents[k]) {
                s.append(index.files[f].items[i].concise_text.as_str());
                s.append(" • ");
            }
            k = k + 1;
        }
        s.append(self.concise_text.as_str());
        s
    }
}

/// Whether items are in the order of their starts and any two of them are
/// nested or disjoint.
pub open spec fn well_nested(starts: Seq<int>, ends: Seq<int>) -> bool {
    &&& starts.len() == ends.len()
    &&& forall|a: int, b: int|
        0 <= a < b < starts.len() ==> (#[trigger] starts[a]) <= (#[trigger] starts[b])
    &&& forall|a: int, b: int|
        0 <= a < b < starts.len() ==> #[trigger] ends[b] <= #[trigger] ends[a] || ends[a]
            <= starts[b]
}

/// The parents of an item are exactly the earlier items that reach beyond its
/// start, from the first to the last: the items that enclose it.
pub proof fn law_parents_enclose(starts: Seq<int>, ends: Seq<int>, i: int)
    requires
        well_nested(starts, ends),
        0 <= i < starts.len(),
    ensures
        forall|j: int|
            open_items(starts, ends, i).contains(j) <==> 0 <= j < i && ends[j] > starts[i],
        forall|x: int, y: int|
            0 <= x < y < open_items(starts, ends, i).len() ==> open_items(starts, ends, i)[x]
                < open_items(starts, ends, i)[y],
    decreases i,
{
    if i > 0 {
        law_parents_enclose(starts, ends, i - 1);
        lemma_open_items(starts, ends, i - 1);
        let below = open_items(starts, ends, i - 1);
        let open = below.push(i - 1);
        assert forall|x: int, y: int| 0 <= x < y < open.len() implies open[x] < open[y]
            && ends[open[y]] <= ends[open[x]] by {
            assert(below.contains(open[x]));
            if y < below.len() {
                assert(below.contains(open[y]));
                assert(starts[open[y]] <= starts[i - 1]);
            }
            assert(ends[open[x]] > starts[open[y]]);
            assert(ends[open[y]] <= ends[open[x]]);
        }
        lemma_closing(open, ends, starts[i]);
        let now = open_items(starts, ends, i);
        lemma_still_open(open, ends, starts[i]);
        assert forall|j: int| now.contains(j) <==> 0 <= j < i && ends[j] > starts[i] by {
            if now.contains(j) {
                let x = choose|x: int| 0 <= x < now.len() && now[x] == j;
                assert(open[x] == j);
                if x < below.len() {
                    assert(below.contains(j));
                }
            }
            if 0 <= j < i && ends[j] > starts[i] {
                assert(starts[i - 1] <= starts[i]);
                if j < i - 1 {
                    assert(below.contains(j));
                    let x = choose|x: int| 0 <= x < below.len() && below[x] == j;
                    assert(open[x] == j);
                } else {
                    assert(open[below.len() as int] == j);
                }
                assert(open.contains(j));
                let x = choose|x: int| 0 <= x < open.len() && open[x] == j;
                assert(x < now.len());
                assert(now[x] == j);
            }
        }
    }
}

/// Closing from the end, where the ends do not grow towards it, leaves exactly
/// the items that end later.
proof fn lemma_closing(open: Seq<int>, ends: Seq<int>, start: int)
    requires
        forall|x: int, y: int|
            0 <= x < y < open.len() ==> ends[#[trigger] open[y]] <= ends[#[trigger] open[x]],
    ensures
        forall|x: int|
            0 <= x < open.len() ==> (x < still_open(open, ends, start).len() <==> ends[
                #[trigger] open[x]
            ] > start),
    decreases open.len(),
{
    if open.len() > 0 {
        let last = open.len() - 1;
        if start >= ends[open[last]] {
            let shorter = open.drop_last();
            lemma_closing(shorter, ends, start);
            lemma_still_open(shorter, ends, start);
            assert forall|x: int| 0 <= x < open.len() implies (x < still_open(
                open,
                ends,
                start,
            ).len() <==> ends[#[trigger] open[x]] > start) by {
                if x < last {
                    assert(shorter[x] == open[x]);
                }
            }
        } else {
            assert forall|x: int| 0 <= x < open.len() implies ends[#[trigger] open[x]]
                > start by {
                if x < last {
                    assert(ends[open[last]] <= ends[open[x]]);
                }
            }
        }
    }
}

/// Whether captures of a number are parts of a signature: those of the name, of the
/// context and of what a query marks as such, but no annotations.
pub open spec fn is_signature_part(config: &OutlineConfig, index: u32) -> bool {
    &&& config.annotation_capture_ix != Some(index)
    &&& {
        ||| index == config.name_capture_ix
        ||| config.context_capture_ix == Some(index)
        ||| config.extra_context_capture_ix == Some(index)
        ||| config.signature_capture_ix == Some(index)
    }
}

/// The first and the last part of the signature among some captures.
proof fn lemma_signature_span(captures: Seq<Capture>, config: &OutlineConfig) -> (r: (int, int))
    requires
        signature_span(captures, config) is Some,
    ensures
        0 <= r.0 <= r.1 < captures.len(),
        is_signature_part(config, captures[r.0].index),
        is_signature_part(config, captures[r.1].index),
        forall|k: int|
            0 <= k < captures.len() && is_signature_part(config, (#[trigger] captures[k]).index)
                ==> r.0 <= k <= r.1,
        signature_span(captures, config) == Some(
            (captures[r.0].start_byte, captures[r.1].end_byte),
        ),
    decreases captures.len(),
{
    let shorter = captures.drop_last();
    let n = captures.len() - 1;
    if signature_span(shorter, config) is Some {
        let (a, b) = lemma_signature_span(shorter, config);
        assert forall|k: int|
            0 <= k < n && is_signature_part(
                config,
                (#[trigger] captures[k]).index,
            ) implies a <= k <= b by {
            assert(shorter[k] == captures[k]);
        }
        if is_signature_part(config, captures[n].index) {
            (a, n)
        } else {
            (a, b)
        }
    } else {
        lemma_no_signature(shorter, config);
        assert forall|k: int|
            0 <= k < captures.len() && is_signature_part(
                config,
                (#[trigger] captures[k]).index,
            ) implies k == n by {
            if k < n {
                assert(shorter[k] == captures[k]);
            }
        }
        (n, n)
    }
}

proof fn lemma_no_signature(captures: Seq<Capture>, config: &OutlineConfig)
    ensures
        signature_span(captures, config) is None <==> forall|k: int|
            0 <= k < captures.len() ==> !is_signature_part(config, (#[trigger] captures[k]).index),
    decreases captures.len(),
{
    if captures.len() > 0 {
        let shorter = captures.drop_last();
        lemma_no_signature(shorter, config);
        let n = captures.len() - 1;
        if signature_span(captures, config) is None {
            assert forall|k: int| 0 <= k < captures.len() implies !is_signature_part(
                config,
                (#[trigger] captures[k]).index,
            ) by {
                if k < n {
                    assert(shorter[k] == captures[k]);
                }
            }
        } else {
            if is_signature_part(config, captures[n].index) {
            } else {
                let k = choose|k: int|
                    0 <= k < shorter.len() && is_signature_part(
                        config,
                        (#[trigger] shorter[k]).index,
                    );
                assert(is_signature_part(config, captures[k].index));
            }
        }
    }
}

/// Whether a capture is the last of a list with the given number.
pub open spec fn is_last_with(captures: Seq<Capture>, k: int, index: u32) -> bool {
    &&& 0 <= k < captures.len()
    &&& captures[k].index == index
    &&& forall|j: int| k < j < captures.len() ==> (#[trigger] captures[j]).index != index
}

/// Whether the numbers that a configuration gives to name, item and annotation differ
/// from each other and from those of the signature's parts.
pub open spec fn numbers_differ(config: &OutlineConfig) -> bool {
    &&& config.name_capture_ix != config.item_capture_ix
    &&& config.annotation_capture_ix != Some(config.name_capture_ix)
    &&& config.annotation_capture_ix != Some(config.item_capture_ix)
    &&& config.context_capture_ix != Some(config.item_capture_ix)
    &&& config.extra_context_capture_ix != Some(config.item_capture_ix)
    &&& config.signature_capture_ix != Some(config.item_capture_ix)
}

/// The signature covers its parts: it starts where the first of the captures of the
/// name, of the context and of the signature starts and ends where the last of them
/// ends. Where these are in the order of the text, each lies within it, the name among
/// them.
pub proof fn law_signature_covers_its_parts(
    item: OutlineItem,
    bytes: Seq<u8>,
    captures: Seq<Capture>,
    config: &OutlineConfig,
)
    requires
        describes_item(item, bytes, captures, config),
    ensures
        exists|a: int, b: int|
            {
                &&& 0 <= a <= b < captures.len()
                &&& is_signature_part(config, (#[trigger] captures[a]).index)
                &&& is_signature_part(config, (#[trigger] captures[b]).index)
                &&& item.signature_range.start == captures[a].start_byte
                &&& item.signature_range.end == captures[b].end_byte
                &&& forall|k: int|
                    0 <= k < captures.len() && is_signature_part(
                        config,
                        (#[trigger] captures[k]).index,
                    ) ==> a <= k <= b
            },
        (forall|j: int, k: int|
            0 <= j <= k < captures.len() && is_signature_part(
                config,
                (#[trigger] captures[j]).index,
            ) && is_signature_part(config, (#[trigger] captures[k]).index)
                ==> captures[j].start_byte <= captures[k].start_byte && captures[j].end_byte
                <= captures[k].end_byte) ==> {
            &&& forall|k: int|
                0 <= k < captures.len() && is_signature_part(
                    config,
                    (#[trigger] captures[k]).index,
                ) ==> item.signature_range.start <= captures[k].start_byte
                    && captures[k].end_byte <= item.signature_range.end
            &&& item.signature_range.start <= item.name_range.start
            &&& item.name_range.end <= item.signature_range.end
        },
{
    let (a, b) = lemma_signature_span(captures, config);
    assert(captures[a].index == captures[a].index && captures[b].index == captures[b].index);
    let n = lemma_last_with_role(captures, config, Role::Name);
    assert(is_signature_part(config, captures[n].index));
}

/// Where the last capture with a role stands.
proof fn lemma_last_with_role(captures: Seq<Capture>, config: &OutlineConfig, wanted: Role) -> (k:
    int)
    requires
        last_with_role(captures, config, wanted) is Some,
    ensures
        0 <= k < captures.len(),
        role(config, captures[k].index) == wanted,
        last_with_role(captures, config, wanted) == Some(
            (captures[k].start_byte, captures[k].end_byte),
        ),
        forall|j: int|
            k < j < captures.len() ==> role(config, (#[trigger] captures[j]).index) != wanted,
    decreases captures.len(),
{
    if role(config, captures.last().index) == wanted {
        captures.len() - 1
    } else {
        let shorter = captures.drop_last();
        let k = lemma_last_with_role(shorter, config, wanted);
        assert forall|j: int| k < j < captures.len() implies role(
            config,
            (#[trigger] captures[j]).index,
        ) != wanted by {
            if j < shorter.len() {
                assert(shorter[j] == captures[j]);
            }
        }
        k
    }
}

proof fn lemma_none_with_role(captures: Seq<Capture>, config: &OutlineConfig, wanted: Role)
    ensures
        last_with_role(captures, config, wanted) is None <==> forall|k: int|
            0 <= k < captures.len() ==> role(config, (#[trigger] captures[k]).index) != wanted,
    decreases captures.len(),
{
    if captures.len() > 0 {
        let shorter = captures.drop_last();
        lemma_none_with_role(shorter, config, wanted);
        if last_with_role(captures, config, wanted) is None {
            assert forall|k: int| 0 <= k < captures.len() implies role(
                config,
                (#[trigger] captures[k]).index,
            ) != wanted by {
                if k < shorter.len() {
                    assert(shorter[k] == captures[k]);
                }
            }
        } else if role(config, captures.last().index) != wanted {
            let k = choose|k: int|
                0 <= k < shorter.len() && role(config, (#[trigger] shorter[k]).index) == wanted;
            assert(role(config, captures[k].index) == wanted);
        } else {
            assert(role(config, captures[captures.len() - 1].index) == wanted);
        }
    }
}

/// The name and the extent of an item are those of the last captures of the name and of
/// the item.
pub proof fn law_item_is_its_captures(
    item: OutlineItem,
    bytes: Seq<u8>,
    captures: Seq<Capture>,
    config: &OutlineConfig,
)
    requires
        describes_item(item, bytes, captures, config),
        numbers_differ(config),
    ensures
        exists|k: int|
            {
                &&& #[trigger] is_last_with(captures, k, config.name_capture_ix)
                &&& item.name_range.start == captures[k].start_byte
                &&& item.name_range.end == captures[k].end_byte
            },
        exists|k: int|
            {
                &&& #[trigger] is_last_with(captures, k, config.item_capture_ix)
                &&& item.item_range.start == captures[k].start_byte
                &&& item.item_range.end == captures[k].end_byte
            },
{
    let n = lemma_last_with_role(captures, config, Role::Name);
    assert(is_last_with(captures, n, config.name_capture_ix)) by {
        assert forall|j: int| n < j < captures.len() implies (#[trigger] captures[j]).index
            != config.name_capture_ix by {
            assert(!(role(config, captures[j].index) is Name));
        }
    }
    let i = lemma_last_with_role(captures, config, Role::Item);
    assert(is_last_with(captures, i, config.item_capture_ix)) by {
        assert forall|j: int| i < j < captures.len() implies (#[trigger] captures[j]).index
            != config.item_capture_ix by {
            assert(!(role(config, captures[j].index) is Item));
        }
    }
}

/// Whether a match captures a number.
pub open spec fn captures_number(captures: Seq<Capture>, index: u32) -> bool {
    exists|k: int| 0 <= k < captures.len() && (#[trigger] captures[k]).index == index
}

/// A match is an item exactly if it captures a name and an extent and no annotation.
pub proof fn law_which_matches_are_items(captures: Seq<Capture>, config: &OutlineConfig)
    requires
        numbers_differ(config),
    ensures
        is_item(captures, config) <==> {
            &&& captures_number(captures, config.name_capture_ix)
            &&& captures_number(captures, config.item_capture_ix)
            &&& config.annotation_capture_ix matches Some(index) ==> !captures_number(
                captures,
                index,
            )
        },
        last_with_role(captures, config, Role::Annotation) is Some <==> {
            &&& config.annotation_capture_ix matches Some(index)
            &&& captures_number(captures, index)
        },
{
    lemma_none_with_role(captures, config, Role::Annotation);
    lemma_none_with_role(captures, config, Role::Name);
    lemma_none_with_role(captures, config, Role::Item);
    lemma_no_signature(captures, config);
    if captures_number(captures, config.name_capture_ix) {
        let k = choose|k: int|
            0 <= k < captures.len() && (#[trigger] captures[k]).index == config.name_capture_ix;
        assert(role(config, captures[k].index) is Name);
        assert(is_signature_part(config, captures[k].index));
    }
    if last_with_role(captures, config, Role::Name) is Some {
        let k = lemma_last_with_role(captures, config, Role::Name);
        assert(captures[k].index == config.name_capture_ix);
    }
    if captures_number(captures, config.item_capture_ix) {
        let k = choose|k: int|
            0 <= k < captures.len() && (#[trigger] captures[k]).index == config.item_capture_ix;
        assert(role(config, captures[k].index) is Item);
    }
    if last_with_role(captures, config, Role::Item) is Some {
        let k = lemma_last_with_role(captures, config, Role::Item);
        assert(captures[k].index == config.item_capture_ix);
    }
    if let Some(index) = config.annotation_capture_ix {
        if captures_number(captures, index) {
            let k = choose|k: int| 0 <= k < captures.len() && (#[trigger] captures[k]).index == index;
            assert(role(config, captures[k].index) is Annotation);
        }
        if last_with_role(captures, config, Role::Annotation) is Some {
            let k = lemma_last_with_role(captures, config, Role::Annotation);
            assert(captures[k].index == index);
        }
    }
}

/// Whether a capture contributes to the concise text: it is one of the name or of the
/// context, not an annotation, and its first line is not empty.
pub open spec fn is_shown(bytes: Seq<u8>, config: &OutlineConfig, capture: Capture) -> bool {
    &&& config.annotation_capture_ix != Some(capture.index)
    &&& {
        ||| capture.index == config.name_capture_ix
        ||| config.context_capture_ix == Some(capture.index)
        ||| config.extra_context_capture_ix == Some(capture.index)
    }
    &&& capture.start_byte < first_line_end(bytes, capture)
}

/// The first line of a capture.
pub open spec fn first_line(bytes: Seq<u8>, capture: Capture) -> Seq<u8> {
    bytes.subrange(capture.start_byte as int, first_line_end(bytes, capture))
}

/// The first line of a capture ends where the capture does, if it has one line only, and
/// otherwise at the next newline.
pub proof fn law_first_line_end(bytes: Seq<u8>, capture: Capture)
    requires
        capture.start_row <= u32::MAX,
        capture.start_column <= capture.start_byte <= bytes.len(),
        row_start(bytes, 0, capture.start_row as nat) == Some(
            capture.start_byte - capture.start_column,
        ),
        forall|i: int|
            capture.start_byte - capture.start_column <= i < capture.start_byte
                ==> #[trigger] bytes[i] != NEWLINE,
    ensures
        first_line_end(bytes, capture) == if capture.end_row <= capture.start_row {
            capture.end_byte as int
        } else {
            line_end(bytes, capture.start_byte as int)
        },
{
    lemma_line_end_within(
        bytes,
        capture.start_byte - capture.start_column,
        capture.start_byte as int,
    );
}

proof fn lemma_line_end_within(bytes: Seq<u8>, a: int, b: int)
    requires
        0 <= a <= b <= bytes.len(),
        forall|i: int| a <= i < b ==> #[trigger] bytes[i] != NEWLINE,
    ensures
        line_end(bytes, a) == line_end(bytes, b),
    decreases b - a,
{
    if a < b {
        lemma_line_end_within(bytes, a + 1, b);
    }
}

/// Captures that are not shown change nothing.
proof fn lemma_concise_skips(
    bytes: Seq<u8>,
    captures: Seq<Capture>,
    config: &OutlineConfig,
    n: int,
    m: int,
)
    requires
        0 <= n <= m <= captures.len(),
        forall|k: int| n <= k < m ==> !is_shown(bytes, config, #[trigger] captures[k]),
    ensures
        concise(bytes, captures.take(m), config) == concise(bytes, captures.take(n), config),
    decreases m - n,
{
    if n < m {
        lemma_concise_skips(bytes, captures, config, n, m - 1);
        assert(captures.take(m).drop_last() =~= captures.take(m - 1));
        assert(captures.take(m).last() == captures[m - 1]);
        assert(!is_shown(bytes, config, captures[m - 1]));
    }
}

/// What is shown of the first captures stays in front.
proof fn lemma_concise_grows(
    bytes: Seq<u8>,
    captures: Seq<Capture>,
    config: &OutlineConfig,
    n: int,
    m: int,
) -> (rest: Seq<u8>)
    requires
        0 <= n <= m <= captures.len(),
    ensures
        concise(bytes, captures.take(m), config).0 == concise(
            bytes,
            captures.take(n),
            config,
        ).0 + rest,
    decreases m - n,
{
    let start = concise(bytes, captures.take(n), config).0;
    if n == m {
        assert(start =~= start + Seq::<u8>::empty());
        Seq::empty()
    } else {
        let before = lemma_concise_grows(bytes, captures, config, n, m - 1);
        assert(captures.take(m).drop_last() =~= captures.take(m - 1));
        let sofar = concise(bytes, captures.take(m - 1), config).0;
        let all = concise(bytes, captures.take(m), config).0;
        let rest = all.subrange(start.len() as int, all.len() as int);
        assert(all.subrange(0, sofar.len() as int) =~= sofar);
        assert(all =~= start + rest) by {
            assert(sofar =~= start + before);
        }
        rest
    }
}

/// A text that is made of others holds two of them and what lies between.
proof fn lemma_holds_lines(
    before: Seq<u8>,
    line: Seq<u8>,
    gap: Seq<u8>,
    next: Seq<u8>,
    after: Seq<u8>,
)
    ensures
        holds((before + line + gap + next) + after, line + gap + next),
{
    let both = line + gap + next;
    lemma_holds_itself(both);
    lemma_holds(before, both, after, both);
    assert((before + line + gap + next) + after =~= before + both + after);
}

/// The concise text of an item begins with the first line of the first capture that is
/// shown, ends with that of the last, and holds those of any two that follow one
/// another, with one blank between them where text lies between the two.
#[verifier::rlimit(80)]
#[verifier::spinoff_prover]
pub proof fn law_concise_text(
    item: OutlineItem,
    bytes: Seq<u8>,
    captures: Seq<Capture>,
    config: &OutlineConfig,
    a: int,
    b: int,
)
    requires
        describes_item(item, bytes, captures, config),
        0 <= a < b <= captures.len(),
        is_shown(bytes, config, captures[a]),
        b < captures.len() ==> is_shown(bytes, config, captures[b]),
        forall|k: int| a < k < b ==> !is_shown(bytes, config, #[trigger] captures[k]),
        forall|k: int|
            0 <= k < captures.len() ==> capture_fits(bytes, #[trigger] captures[k]),
        valid_utf8(bytes),
    ensures
        b < captures.len() ==> holds(
            encode_utf8(item.concise_text@),
            first_line(bytes, captures[a]) + (if captures[b].start_byte > first_line_end(
                bytes,
                captures[a],
            ) {
                seq![0x20u8]
            } else {
                Seq::empty()
            }) + first_line(bytes, captures[b]),
        ),
        b == captures.len() ==> has_suffix(
            encode_utf8(item.concise_text@),
            first_line(bytes, captures[a]),
        ),
        (forall|k: int| 0 <= k < a ==> !is_shown(bytes, config, #[trigger] captures[k]))
            ==> has_prefix(encode_utf8(item.concise_text@), first_line(bytes, captures[a])),
        (forall|k: int| 0 <= k < a ==> !is_shown(bytes, config, #[trigger] captures[k])) && b
            == captures.len() ==> encode_utf8(item.concise_text@) == first_line(
            bytes,
            captures[a],
        ),
{
    let text = encode_utf8(item.concise_text@);
    let line = first_line(bytes, captures[a]);
    assert(captures.take(captures.len() as int) =~= captures);
    assert(captures.take(a + 1).drop_last() =~= captures.take(a));
    assert(captures.take(a + 1).last() == captures[a]);
    let (head, head_end) = concise(bytes, captures.take(a), config);
    let (with_a, a_end) = concise(bytes, captures.take(a + 1), config);
    assert(capture_fits(bytes, captures[a]));
    lemma_boundary_in_range(bytes, first_line_end(bytes, captures[a]));
    let blank: Seq<u8> = if head_end is Some && captures[a].start_byte > head_end->0 {
        seq![0x20u8]
    } else {
        Seq::empty()
    };
    assert(with_a == head + blank + line);
    lemma_concise_skips(bytes, captures, config, a + 1, b);
    let rest = lemma_concise_grows(bytes, captures, config, a + 1, captures.len() as int);
    if b < captures.len() {
        assert(captures.take(b + 1).drop_last() =~= captures.take(b));
        assert(captures.take(b + 1).last() == captures[b]);
        let next = first_line(bytes, captures[b]);
        let gap: Seq<u8> = if captures[b].start_byte > first_line_end(bytes, captures[a]) {
            seq![0x20u8]
        } else {
            Seq::empty()
        };
        let with_b = concise(bytes, captures.take(b + 1), config).0;
        assert(with_b == with_a + gap + next);
        let tail = lemma_concise_grows(bytes, captures, config, b + 1, captures.len() as int);
        assert(text == (head + blank + line + gap + next) + tail);
        lemma_holds_lines(head + blank, line, gap, next, tail);
    } else {
        assert(text == with_a);
        assert(text.subrange(text.len() - line.len(), text.len() as int) =~= line);
    }
    if forall|k: int| 0 <= k < a ==> !is_shown(bytes, config, #[trigger] captures[k]) {
        lemma_concise_skips(bytes, captures, config, 0, a);
        assert(captures.take(0) =~= Seq::<Capture>::empty());
        assert(head.len() == 0 && head_end is None);
        assert(with_a =~= line);
        assert(text.subrange(0, line.len() as int) =~= line);
    }
}

/// The matches that are items are counted off in their order.
proof fn lemma_item_matches(matches: Seq<Seq<Capture>>, config: &OutlineConfig, n: nat)
    requires
        n <= matches.len(),
    ensures
        forall|k: int|
            0 <= k < item_matches(matches, config, n).len() ==> {
                let m = #[trigger] item_matches(matches, config, n)[k];
                0 <= m < n && is_item(matches[m], config)
            },
        forall|j: int, k: int|
            0 <= j < k < item_matches(matches, config, n).len() ==> #[trigger] item_matches(
                matches,
                config,
                n,
            )[j] < #[trigger] item_matches(matches, config, n)[k],
        forall|m: int|
            0 <= m < n && is_item(#[trigger] matches[m], config) ==> item_matches(
                matches,
                config,
                n,
            ).contains(m),
    decreases n,
{
    if n > 0 {
        lemma_item_matches(matches, config, (n - 1) as nat);
        let before = item_matches(matches, config, (n - 1) as nat);
        let now = item_matches(matches, config, n);
        assert forall|m: int| 0 <= m < n && is_item(#[trigger] matches[m], config) implies
            now.contains(m) by {
            if m < n - 1 {
                assert(before.contains(m));
                let k = choose|k: int| 0 <= k < before.len() && before[k] == m;
                assert(now[k] == m);
            } else {
                assert(now[before.len() as int] == m);
            }
        }
    }
}

proof fn lemma_numbers_used(matches: Seq<Seq<Capture>>, config: &OutlineConfig, a: int, b: int)
    requires
        0 <= a < b <= matches.len(),
        is_item(matches[a], config),
    ensures
        numbers_used(matches, config, a) < numbers_used(matches, config, b),
    decreases b,
{
    if a < b - 1 {
        lemma_numbers_used(matches, config, a, b - 1);
    }
}

#[verifier::rlimit(40)]
#[verifier::spinoff_prover]
proof fn lemma_match_is_listed(
    items: Seq<OutlineItem>,
    bytes: Seq<u8>,
    matches: Seq<Seq<Capture>>,
    config: &OutlineConfig,
    first_id: int,
    m: int,
) -> (a: int)
    requires
        is_outline(items, bytes, matches, config, first_id),
        0 <= m < matches.len(),
        is_item(matches[m], config),
    ensures
        0 <= a < items.len(),
        describes_item(items[a], bytes, matches[m], config),
{
    let found = item_matches(matches, config, matches.len());
    let keys = item_starts(matches, config, found);
    let sorting = stable_order(keys, keys.len());
    let order = outline_order(matches, config);
    lemma_item_matches(matches, config, matches.len());
    lemma_sorted_items(found, keys);
    law_stable_order(keys, keys.len());
    assert(found.contains(m));
    let k = choose|k: int| 0 <= k < found.len() && found[k] == m;
    law_sort_loses_nothing(keys, keys.len(), k);
    let a = choose|a: int| 0 <= a < sorting.len() && sorting[a] == k;
    assert(order[a] == m);
    assert(describes_item(items[a], bytes, matches[order[a]], config));
    a
}

#[verifier::rlimit(40)]
#[verifier::spinoff_prover]
proof fn lemma_item_is_of_match(
    items: Seq<OutlineItem>,
    bytes: Seq<u8>,
    matches: Seq<Seq<Capture>>,
    config: &OutlineConfig,
    first_id: int,
    a: int,
) -> (m: int)
    requires
        is_outline(items, bytes, matches, config, first_id),
        0 <= a < items.len(),
    ensures
        0 <= m < matches.len(),
        is_item(matches[m], config),
        describes_item(items[a], bytes, matches[m], config),
        first_id <= items[a].id.0 < first_id + numbers_used(
            matches,
            config,
            matches.len() as int,
        ),
{
    let found = item_matches(matches, config, matches.len());
    let keys = item_starts(matches, config, found);
    let sorting = stable_order(keys, keys.len());
    let order = outline_order(matches, config);
    lemma_item_matches(matches, config, matches.len());
    lemma_sorted_items(found, keys);
    law_stable_order(keys, keys.len());
    assert(describes_item(items[a], bytes, matches[order[a]], config));
    assert(order[a] == found[sorting[a]]);
    lemma_numbers_used(matches, config, order[a], matches.len() as int);
    order[a]
}

#[verifier::rlimit(40)]
#[verifier::spinoff_prover]
proof fn lemma_items_in_order(
    items: Seq<OutlineItem>,
    bytes: Seq<u8>,
    matches: Seq<Seq<Capture>>,
    config: &OutlineConfig,
    first_id: int,
    a: int,
    b: int,
)
    requires
        is_outline(items, bytes, matches, config, first_id),
        0 <= a < b < items.len(),
    ensures
        items[a].item_range.start <= items[b].item_range.start,
        items[a].item_range.start == items[b].item_range.start ==> items[a].id.0 < items[b].id.0,
        items[a].id != items[b].id,
{
    let found = item_matches(matches, config, matches.len());
    let keys = item_starts(matches, config, found);
    let sorting = stable_order(keys, keys.len());
    let order = outline_order(matches, config);
    lemma_item_matches(matches, config, matches.len());
    lemma_sorted_items(found, keys);
    law_stable_order(keys, keys.len());
    assert(describes_item(items[a], bytes, matches[order[a]], config));
    assert(describes_item(items[b], bytes, matches[order[b]], config));
    assert(order[a] == found[sorting[a]] && order[b] == found[sorting[b]]);
    assert(keys[sorting[a]] == items[a].item_range.start);
    assert(keys[sorting[b]] == items[b].item_range.start);
    if order[a] < order[b] {
        lemma_numbers_used(matches, config, order[a], order[b]);
    } else {
        if sorting[a] < sorting[b] {
            assert(found[sorting[a]] < found[sorting[b]]);
        } else if sorting[b] < sorting[a] {
            assert(found[sorting[b]] < found[sorting[a]]);
            lemma_numbers_used(matches, config, order[b], order[a]);
        }
    }
}

/// Whether an item is what one of the matches that are items describes.
pub open spec fn is_of_match(
    item: OutlineItem,
    bytes: Seq<u8>,
    matches: Seq<Seq<Capture>>,
    config: &OutlineConfig,
) -> bool {
    exists|m: int|
        {
            &&& 0 <= m < matches.len()
            &&& is_item(#[trigger] matches[m], config)
            &&& describes_item(item, bytes, matches[m], config)
        }
}

/// An outline lists the items of all matches that are items, and no others, by their
/// starts, and those that start together in the order of the matches. No two have the
/// same number.
#[verifier::rlimit(40)]
#[verifier::spinoff_prover]
pub proof fn law_outline_lists_all_items(
    items: Seq<OutlineItem>,
    bytes: Seq<u8>,
    matches: Seq<Seq<Capture>>,
    config: &OutlineConfig,
    first_id: int,
)
    requires
        is_outline(items, bytes, matches, config, first_id),
    ensures
        forall|m: int|
            0 <= m < matches.len() && is_item(#[trigger] matches[m], config) ==> exists|a: int|
                0 <= a < items.len() && describes_item(
                    #[trigger] items[a],
                    bytes,
                    matches[m],
                    config,
                ),
        forall|a: int|
            0 <= a < items.len() ==> is_of_match(#[trigger] items[a], bytes, matches, config),
        forall|a: int, b: int|
            0 <= a < b < items.len() ==> {
                &&& (#[trigger] items[a]).item_range.start <= (
                #[trigger] items[b]).item_range.start
                &&& items[a].item_range.start == items[b].item_range.start ==> items[a].id.0
                    < items[b].id.0
                &&& items[a].id != items[b].id
            },
        forall|a: int|
            0 <= a < items.len() ==> first_id <= (#[trigger] items[a]).id.0 < first_id
                + numbers_used(matches, config, matches.len() as int),
{
    assert forall|m: int|
        0 <= m < matches.len() && is_item(#[trigger] matches[m], config) implies exists|a: int|
        0 <= a < items.len() && describes_item(
            #[trigger] items[a],
            bytes,
            matches[m],
            config,
        ) by {
        let a = lemma_match_is_listed(items, bytes, matches, config, first_id, m);
        assert(describes_item(items[a], bytes, matches[m], config));
    }
    assert forall|a: int| 0 <= a < items.len() implies is_of_match(
        #[trigger] items[a],
        bytes,
        matches,
        config,
    ) by {
        let m = lemma_item_is_of_match(items, bytes, matches, config, first_id, a);
        assert(is_item(matches[m], config));
    }
    assert forall|a: int| 0 <= a < items.len() implies first_id <= (#[trigger] items[a]).id.0
        < first_id + numbers_used(matches, config, matches.len() as int) by {
        let m = lemma_item_is_of_match(items, bytes, matches, config, first_id, a);
    }
    assert forall|a: int, b: int| 0 <= a < b < items.len() implies {
        &&& (#[trigger] items[a]).item_range.start <= (#[trigger] items[b]).item_range.start
        &&& items[a].item_range.start == items[b].item_range.start ==> items[a].id.0
            < items[b].id.0
        &&& items[a].id != items[b].id
    } by {
        lemma_items_in_order(items, bytes, matches, config, first_id, a, b);
    }
}

/// In an outline whose items are nested or disjoint, the parents of an item are exactly
/// the earlier items that reach beyond its start, the outermost first.
#[verifier::rlimit(50)]
#[verifier::spinoff_prover]
pub proof fn law_parents_of_items(
    items: Seq<OutlineItem>,
    bytes: Seq<u8>,
    matches: Seq<Seq<Capture>>,
    config: &OutlineConfig,
    first_id: int,
    i: int,
)
    requires
        is_outline(items, bytes, matches, config, first_id),
        well_nested(starts_of(items), ends_of(items)),
        0 <= i < items.len(),
    ensures
        forall|j: int|
            0 <= j < items.len() ==> (items[i].parents@.contains((#[trigger] items[j]).id) <==> j
                < i && items[j].item_range.end > items[i].item_range.start),
        items[i].parents@.len() <= i,
        forall|x: int, y: int|
            0 <= x < y < items[i].parents@.len() ==> (#[trigger] items[i].parents@[x]) != (
            #[trigger] items[i].parents@[y]),
        forall|x: int, y: int, j: int, k: int|
            #![trigger items[i].parents@[x], items[i].parents@[y], items[j], items[k]]
            0 <= x < y < items[i].parents@.len() && 0 <= j < items.len() && 0 <= k < items.len()
                && items[i].parents@[x] == items[j].id && items[i].parents@[y] == items[k].id ==> j
                < k,
{
    let starts = starts_of(items);
    let ends = ends_of(items);
    let open = open_items(starts, ends, i);
    assert(items[i].parents@ == ids_at(items, open)) by {
        assert(describes_item(
            items[i],
            bytes,
            matches[outline_order(matches, config)[i]],
            config,
        ));
    }
    assert(forall|a: int, b: int|
        0 <= a < b < items.len() ==> (#[trigger] items[a]).id != (#[trigger] items[b]).id) by {
        law_outline_lists_all_items(items, bytes, matches, config, first_id);
    }
    lemma_open_items(starts, ends, i);
    assert(forall|j: int|
        0 <= j < items.len() ==> (#[trigger] open.contains(j) <==> j < i
            && items[j].item_range.end > items[i].item_range.start)) by {
        law_parents_enclose(starts, ends, i);
        assert forall|j: int| 0 <= j < items.len() implies (#[trigger] open.contains(j) <==> j < i
            && items[j].item_range.end > items[i].item_range.start) by {
            assert(ends[j] == items[j].item_range.end && starts[i] == items[i].item_range.start);
        }
    }
    assert(forall|x: int, y: int| 0 <= x < y < open.len() ==> open[x] < open[y]) by {
        law_parents_enclose(starts, ends, i);
    }
    lemma_parents(items, i, open);
}

proof fn lemma_parents(items: Seq<OutlineItem>, i: int, open: Seq<int>)
    requires
        0 <= i < items.len(),
        items[i].parents@ == ids_at(items, open),
        forall|x: int| 0 <= x < open.len() ==> 0 <= #[trigger] open[x] < i,
        forall|x: int, y: int| 0 <= x < y < open.len() ==> open[x] < open[y],
        forall|j: int|
            0 <= j < items.len() ==> (#[trigger] open.contains(j) <==> j < i
                && items[j].item_range.end > items[i].item_range.start),
        forall|a: int, b: int|
            0 <= a < b < items.len() ==> (#[trigger] items[a]).id != (#[trigger] items[b]).id,
    ensures
        forall|j: int|
            0 <= j < items.len() ==> (items[i].parents@.contains((#[trigger] items[j]).id) <==> j
                < i && items[j].item_range.end > items[i].item_range.start),
        items[i].parents@.len() <= i,
        forall|x: int, y: int|
            0 <= x < y < items[i].parents@.len() ==> (#[trigger] items[i].parents@[x]) != (
            #[trigger] items[i].parents@[y]),
        forall|x: int, y: int, j: int, k: int|
            #![trigger items[i].parents@[x], items[i].parents@[y], items[j], items[k]]
            0 <= x < y < items[i].parents@.len() && 0 <= j < items.len() && 0 <= k < items.len()
                && items[i].parents@[x] == items[j].id && items[i].parents@[y] == items[k].id ==> j
                < k,
{
    let parents = items[i].parents@;
    lemma_ascending_below(open, i);
    assert forall|j: int| 0 <= j < items.len() implies (parents.contains(
        (#[trigger] items[j]).id,
    ) <==> j < i && items[j].item_range.end > items[i].item_range.start) by {
        if parents.contains(items[j].id) {
            let x = choose|x: int| 0 <= x < parents.len() && parents[x] == items[j].id;
            assert(items[open[x]].id == items[j].id);
            assert(open[x] == j);
            assert(open.contains(j));
        }
        if open.contains(j) {
            let x = choose|x: int| 0 <= x < open.len() && open[x] == j;
            assert(parents[x] == items[j].id);
        }
    }
    assert forall|x: int, y: int, j: int, k: int|
        #![trigger parents[x], parents[y], items[j], items[k]]
        0 <= x < y < parents.len() && 0 <= j < items.len() && 0 <= k < items.len() && parents[x]
            == items[j].id && parents[y] == items[k].id implies j < k by {
        assert(open[x] < open[y]);
        assert(items[open[x]].id == items[j].id);
        assert(items[open[y]].id == items[k].id);
    }
    assert forall|x: int, y: int| 0 <= x < y < parents.len() implies (#[trigger] parents[x]) != (
    #[trigger] parents[y]) by {
        assert(open[x] < open[y]);
        assert(items[open[x]].id != items[open[y]].id);
    }
}

/// There are no more numbers below a bound than the bound.
proof fn lemma_ascending_below(numbers: Seq<int>, bound: int)
    requires
        0 <= bound,
        forall|x: int| 0 <= x < numbers.len() ==> 0 <= #[trigger] numbers[x] < bound,
        forall|x: int, y: int| 0 <= x < y < numbers.len() ==> numbers[x] < numbers[y],
    ensures
        numbers.len() <= bound,
    decreases numbers.len(),
{
    if numbers.len() > 0 {
        let shorter = numbers.drop_last();
        lemma_ascending_below(shorter, numbers.last());
    }
}

impl OutlineItem {
    /// The path of an item starts with the texts of its parents, in their order, each
    /// with a bullet behind it.
    pub proof fn law_path_names_parents(&self, index: &IdentifierIndex, n: nat)
        requires
            n <= self.parents@.len(),
        ensures
            self.parent_texts(index, n) == self.parents@.take(n as int).map_values(
                |parent: OutlineId| index.item_of(parent).concise_text@ + " • "@,
            ).flatten(),
        decreases n,
    {
        let text = |parent: OutlineId| index.item_of(parent).concise_text@ + " • "@;
        if n > 0 {
            self.law_path_names_parents(index, (n - 1) as nat);
            let before = self.parents@.take(n - 1).map_values(text);
            let parent = self.parents@[n - 1];
            assert(self.parents@.take(n as int).map_values(text) =~= before.push(text(parent)));
            before.lemma_flatten_push(text(parent));
            assert(self.parent_texts(index, n) =~= before.flatten() + text(parent));
        } else {
            assert(self.parents@.take(0).map_values(text) =~= Seq::empty());
        }
    }
}

} // verus!
