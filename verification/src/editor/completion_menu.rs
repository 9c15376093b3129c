//! The menu of completions: what is asked for, what is shown of the answer.
use crate::editor::code_actions_menu::ContextMenuOrigin;
use crate::editor::menu_selection::MenuSelectionChange;
use crate::text::{blank, has_prefix, is_blank, lemma_boundary_in_range, slice, starts_with, str_eq};
use std::ops::Range;
use vstd::prelude::*;
use vstd::string::*;
use vstd::utf8::*;

verus! {

/// How many rows before and after the cursor words are looked for in.
pub const WORD_LOOKUP_ROWS: u32 = 5_000;

/// A position in a buffer that moves with its text, by the numbers that tell
/// such positions apart.
#[derive(Debug, Copy, Clone, PartialEq, Eq, Structural)]
pub struct Anchor {
    pub buffer_id: Option<u64>,
    pub excerpt_id: u64,
    pub text_anchor: u64,
}

#[derive(Debug, Copy, Clone, PartialEq, Eq, Structural)]
pub enum CharKind {
    Whitespace,
    Punctuation,
    Word,
}

/// The run of characters of one kind around an offset.
#[derive(Debug, Copy, Clone)]
pub struct SurroundingWord {
    pub start: usize,
    pub end: usize,
    pub kind: Option<CharKind>,
}

#[derive(Debug, Copy, Clone, PartialEq, Eq, Structural)]
pub enum WordsCompletionMode {
    Enabled,
    Fallback,
    Disabled,
}

#[derive(Debug, Copy, Clone, PartialEq, Eq, Structural)]
pub enum CompletionTriggerKind {
    Invoked,
    TriggerCharacter,
}

#[derive(Debug)]
pub enum CompletionDocumentation {
    Undocumented,
    SingleLine(String),
    MultiLinePlainText(String),
    MultiLineMarkdown(String),
    SingleLineAndMultiLinePlainText { single_line: String, plain_text: Option<String> },
}

#[derive(Debug)]
pub enum CompletionSource {
    Lsp { deprecated: Option<bool> },
    BufferWord { word_range: Range<usize>, resolved: bool },
    Custom,
}

#[derive(Debug, Copy, Clone, PartialEq, Eq, Structural)]
pub enum InsertTextMode {
    AsIs,
    AdjustIndentation,
}

/// A label, with the part of it that queries are matched against.
#[derive(Debug)]
pub struct CodeLabel {
    pub text: String,
    pub filter_range: Range<usize>,
}

#[derive(Debug)]
pub struct Completion {
    pub replace_range: Range<usize>,
    pub new_text: String,
    pub label: CodeLabel,
    pub icon_path: Option<String>,
    pub color: Option<u32>,
    pub documentation: Option<CompletionDocumentation>,
    pub source: CompletionSource,
    pub insert_text_mode: Option<InsertTextMode>,
}

/// What a provider of completions answers.
#[derive(Debug)]
pub struct CompletionResponse {
    pub completions: Vec<Completion>,
    pub is_incomplete: bool,
}

#[derive(Debug)]
pub struct QueriedCompletions {
    pub completions: Vec<Completion>,
    /// Query that was used when populating.
    pub query: Option<String>,
    /// Whether `completions` is incomplete and so should be refetched instead of
    /// filtering.
    pub is_incomplete: bool,
}

#[derive(Debug)]
pub struct StringMatchCandidate {
    pub id: usize,
    pub string: String,
}

/// A candidate that matches, with the ranges of its matching characters.
#[derive(Debug)]
pub struct StringMatch {
    pub candidate_id: usize,
    pub ranges: Vec<Range<usize>>,
    pub string: String,
}

#[derive(Debug)]
pub struct CompletionMenuContents {
    pub queried_completions: QueriedCompletions,
    /// Match candidates for entry filtering, with the indices of the completions.
    pub match_candidates: Vec<StringMatchCandidate>,
    /// Completion entries filtered / sorted for display.
    pub entries: Vec<StringMatch>,
    /// Index into `entries` for the item currently selected by the user.
    pub selected_item: usize,
    /// Index range in `entries` that was last rendered.
    pub last_rendered_range: Option<Range<usize>>,
}

/// What stands before the label of a completion.
#[derive(Debug)]
pub enum StartSlot {
    Color(u32),
    Icon(String),
}

/// A line of the menu.
#[derive(Debug)]
pub struct CompletionRow {
    pub item_ix: usize,
    pub candidate_id: usize,
    pub selected: bool,
    /// The parts of the label that match.
    pub bold: Vec<Range<usize>>,
    /// Whether the label is struck through.
    pub deprecated: bool,
    pub documentation_label: Option<String>,
    pub start_slot: Option<StartSlot>,
}

/// What is shown beside the menu.
#[derive(Debug)]
pub enum Aside {
    PlainText(String),
    Markdown { candidate_id: usize, source: String },
}

#[derive(Debug)]
pub struct CompletionTask {
    pub query: Option<String>,
}

#[derive(Debug)]
pub struct CompletionMenu {
    pub position: Anchor,
    pub contents: Option<CompletionMenuContents>,
    pub tasks: Vec<CompletionTask>,
}

/// What is known where completions are asked for.
#[derive(Debug)]
pub struct CompletionRequest<'a> {
    pub cursor_position: Anchor,
    pub cursor_offset: usize,
    /// The offset of the menu's own position.
    pub menu_offset: usize,
    /// The text of the buffer.
    pub text: &'a str,
    /// The word at the cursor that a query is taken from.
    pub query_word: SurroundingWord,
    /// The word at the cursor that a completion replaces.
    pub replace_word: SurroundingWord,
    pub trigger: Option<&'a str>,
    /// The characters that trigger completions in the buffer.
    pub completion_triggers: &'a Vec<String>,
    pub has_provider: bool,
    /// Whether the provider lets its completions be filtered.
    pub filter_completions: bool,
    pub words: WordsCompletionMode,
}

/// What to ask for, and what the answers are put together with.
#[derive(Debug)]
pub struct FetchPlan {
    pub query: Option<String>,
    pub trigger_kind: CompletionTriggerKind,
    pub trigger_character: Option<String>,
    pub replace_range: Range<usize>,
    pub word_to_exclude: Option<String>,
    pub ask_provider: bool,
    pub ask_words: bool,
    pub skip_digits: bool,
    pub words: WordsCompletionMode,
}

#[derive(Debug)]
pub enum QueryStep {
    /// The cursor is not where the menu is.
    Elsewhere,
    /// The completions that are there can be filtered.
    Filter,
    Fetch(FetchPlan),
}

/// Whether a query has no digits, so that words with digits are skipped.
pub fn skips_digits(query: &Option<String>) -> (r: bool)
    ensures
        r == match query {
            Some(query) => no_digits(query@),
            None => true,
        },
{
    let text = match query {
        Some(query) => query.as_str(),
        None => {
            return true;
        },
    };
    let len: usize = text.unicode_len();
    let mut i: usize = 0;
    while i < len
        invariant
            i <= len == text@.len(),
            text_of(*query) == Some(text@),
            forall|k: int| 0 <= k < i ==> !('0' <= #[trigger] text@[k] <= '9'),
        decreases len - i,
    {
        let c = text.get_char(i);
        if '0' <= c && c <= '9' {
            return false;
        }
        i = i + 1;
    }
    true
}

pub open spec fn no_digits(query: Seq<char>) -> bool {
    forall|k: int| 0 <= k < query.len() ==> !('0' <= #[trigger] query[k] <= '9')
}

/// The points between which words are looked for around a row, as rows and
/// columns, given the last point of the buffer.
pub fn word_search_points(buffer_row: u32, max_point: (u32, u32)) -> (r: ((u32, u32), (u32, u32)))
    requires
        buffer_row + WORD_LOOKUP_ROWS <= u32::MAX,
    ensures
        (r.0).0 == if buffer_row >= WORD_LOOKUP_ROWS {
            buffer_row - WORD_LOOKUP_ROWS
        } else {
            0
        },
        (r.0).1 == 0,
        r.1 == if buffer_row + WORD_LOOKUP_ROWS <= max_point.0 {
            ((buffer_row + WORD_LOOKUP_ROWS) as u32, 0u32)
        } else {
            max_point
        },
{
    let start: u32 = if buffer_row >= WORD_LOOKUP_ROWS {
        buffer_row - WORD_LOOKUP_ROWS
    } else {
        0
    };
    let end: u32 = buffer_row + WORD_LOOKUP_ROWS;
    if end <= max_point.0 {
        ((start, 0), (end, 0))
    } else {
        ((start, 0), max_point)
    }
}

impl CodeLabel {
    /// Whether the part that is matched lies in the label.
    pub open spec fn wf(&self) -> bool {
        let bytes = encode_utf8(self.text@);
        &&& self.filter_range.start <= self.filter_range.end
        &&& is_char_boundary(bytes, self.filter_range.start as int)
        &&& is_char_boundary(bytes, self.filter_range.end as int)
    }

    /// A label that is matched as a whole.
    pub fn plain(text: String) -> (r: Self)
        ensures
            r.text@ == text@,
            r.filter_range == (0usize..(encode_utf8(text@).len() as usize)),
            encode_utf8(text@).len() <= usize::MAX,
            r.wf(),
    {
        let len: usize = text.as_str().as_bytes().len();
        proof {
            encode_utf8_valid_utf8(text@);
            is_char_boundary_start_end_of_seq(encode_utf8(text@));
        }
        CodeLabel { text, filter_range: 0..len }
    }

    /// The part of the label that queries are matched against.
    pub fn filter_text(&self) -> (r: &str)
        requires
            self.wf(),
        ensures
            encode_utf8(r@) == encode_utf8(self.text@).subrange(
                self.filter_range.start as int,
                self.filter_range.end as int,
            ),
    {
        slice(self.text.as_str(), self.filter_range.start, self.filter_range.end)
    }
}

impl Completion {
    pub open spec fn is_deprecated(&self) -> bool {
        self.source matches CompletionSource::Lsp { deprecated: Some(true) }
    }

    /// The line of documentation that is shown with a completion.
    pub open spec fn documentation_text(&self) -> Option<Seq<char>> {
        let line = match self.documentation {
            Some(CompletionDocumentation::SingleLine(text)) => Some(text@),
            Some(
                CompletionDocumentation::SingleLineAndMultiLinePlainText { single_line, .. },
            ) => Some(single_line@),
            _ => None,
        };
        match line {
            Some(line) => if blank(line) {
                None
            } else {
                Some(line)
            },
            None => None,
        }
    }

    fn documentation_label(&self) -> (r: Option<String>)
        ensures
            text_of(r) == self.documentation_text(),
    {
        let line = match &self.documentation {
            Some(CompletionDocumentation::SingleLine(text)) => text.as_str(),
            Some(
                CompletionDocumentation::SingleLineAndMultiLinePlainText { single_line, .. },
            ) => single_line.as_str(),
            _ => {
                return None;
            },
        };
        if is_blank(line) {
            None
        } else {
            Some(line.to_owned())
        }
    }

    /// Whether a slot shows the color of a completion, or its icon where it has
    /// none.
    pub open spec fn has_slot(&self, slot: Option<StartSlot>) -> bool {
        match self.color {
            Some(color) => slot == Some(StartSlot::Color(color)),
            None => match self.icon_path {
                Some(path) => slot matches Some(StartSlot::Icon(icon)) && icon@ == path@,
                None => slot is None,
            },
        }
    }

    fn start_slot(&self) -> (slot: Option<StartSlot>)
        ensures
            self.has_slot(slot),
    {
        match self.color {
            Some(color) => Some(StartSlot::Color(color)),
            None => match &self.icon_path {
                Some(path) => Some(StartSlot::Icon(path.as_str().to_owned())),
                None => None,
            },
        }
    }
}

/// The characters of an optional text.
pub open spec fn text_of(text: Option<String>) -> Option<Seq<char>> {
    match text {
        Some(text) => Some(text@),
        None => None,
    }
}

/// The bytes of an optional text.
pub open spec fn bytes_of(text: Option<String>) -> Option<Seq<u8>> {
    match text {
        Some(text) => Some(encode_utf8(text@)),
        None => None,
    }
}

fn copy_text(text: &Option<String>) -> (r: Option<String>)
    ensures
        text_of(r) == text_of(*text),
        bytes_of(r) == bytes_of(*text),
{
    match text {
        Some(text) => Some(text.as_str().to_owned()),
        None => None,
    }
}

/// Ranges moved by an offset.
pub open spec fn moved(ranges: Seq<Range<usize>>, offset: int) -> Seq<Range<usize>> {
    ranges.map_values(
        |range: Range<usize>| (offset + range.start) as usize..(offset + range.end) as usize,
    )
}

/// Whether ranges moved by an offset are still offsets.
pub open spec fn can_move(ranges: Seq<Range<usize>>, offset: int) -> bool {
    forall|i: int|
        0 <= i < ranges.len() ==> offset + (#[trigger] ranges[i]).start <= usize::MAX && offset
            + ranges[i].end <= usize::MAX
}

fn move_ranges(ranges: &Vec<Range<usize>>, offset: usize) -> (r: Vec<Range<usize>>)
    requires
        can_move(ranges@, offset as int),
    ensures
        r@ == moved(ranges@, offset as int),
{
    let mut r: Vec<Range<usize>> = Vec::new();
    let mut i: usize = 0;
    while i < ranges.len()
        invariant
            i <= ranges@.len(),
            can_move(ranges@, offset as int),
            r@ == moved(ranges@.take(i as int), offset as int),
        decreases ranges@.len() - i,
    {
        r.push(offset + ranges[i].start..offset + ranges[i].end);
        i = i + 1;
        assert(r@ =~= moved(ranges@.take(i as int), offset as int));
    }
    assert(ranges@.take(i as int) =~= ranges@);
    r
}

impl CompletionMenuContents {
    /// Whether the entries are of the completions.
    pub open spec fn wf(&self) -> bool {
        &&& self.match_candidates@.len() == self.queried_completions.completions@.len()
        &&& forall|i: int|
            0 <= i < self.entries@.len() ==> (#[trigger] self.entries@[i]).candidate_id
                < self.queried_completions.completions@.len()
    }

    /// The completion of an entry.
    pub open spec fn completion(&self, i: int) -> Completion {
        self.queried_completions.completions@[self.entries@[i].candidate_id as int]
    }

    /// A menu of fetched completions, with nothing to show before they are
    /// filtered.
    pub fn new_completions(queried_completions: QueriedCompletions) -> (r: Self)
        requires
            forall|i: int|
                0 <= i < queried_completions.completions@.len() ==> (
                #[trigger] queried_completions.completions@[i]).label.wf(),
        ensures
            r.queried_completions == queried_completions,
            are_candidates(r.match_candidates@, queried_completions.completions@),
            r.entries@.len() == 0,
            r.selected_item == 0,
            r.last_rendered_range is None,
            r.wf(),
    {
        let mut match_candidates: Vec<StringMatchCandidate> = Vec::new();
        let mut id: usize = 0;
        while id < queried_completions.completions.len()
            invariant
                id <= queried_completions.completions@.len(),
                are_candidates(
                    match_candidates@,
                    queried_completions.completions@.take(id as int),
                ),
                forall|i: int|
                    0 <= i < queried_completions.completions@.len() ==> (
                    #[trigger] queried_completions.completions@[i]).label.wf(),
            decreases queried_completions.completions@.len() - id,
        {
            let string = queried_completions.completions[id].label.filter_text().to_owned();
            match_candidates.push(StringMatchCandidate { id, string });
            id = id + 1;
        }
        assert(queried_completions.completions@.take(id as int)
            =~= queried_completions.completions@);
        CompletionMenuContents {
            queried_completions,
            match_candidates,
            entries: Vec::new(),
            selected_item: 0,
            last_rendered_range: None,
        }
    }

    /// A menu of the choices of a snippet, all of them shown.
    pub fn new_snippets(choices: &Vec<String>, selection: Range<usize>) -> (r: Self)
        ensures
            r.queried_completions.query is None,
            !r.queried_completions.is_incomplete,
            r.queried_completions.completions@.len() == choices@.len(),
            r.match_candidates@.len() == choices@.len(),
            r.entries@.len() == choices@.len(),
            forall|i: int|
                0 <= i < choices@.len() ==> is_choice(
                    #[trigger] r.queried_completions.completions@[i],
                    choices@[i]@,
                    selection,
                ),
            forall|i: int|
                0 <= i < choices@.len() ==> (#[trigger] r.match_candidates@[i]).id == i
                    && r.match_candidates@[i].string@ == choices@[i]@,
            forall|i: int|
                0 <= i < choices@.len() ==> (#[trigger] r.entries@[i]).candidate_id == i
                    && r.entries@[i].ranges@.len() == 0 && r.entries@[i].string@ == choices@[i]@,
            r.selected_item == 0,
            r.last_rendered_range is None,
            r.wf(),
    {
        let mut completions: Vec<Completion> = Vec::new();
        let mut match_candidates: Vec<StringMatchCandidate> = Vec::new();
        let mut entries: Vec<StringMatch> = Vec::new();
        let mut id: usize = 0;
        while id < choices.len()
            invariant
                id <= choices@.len(),
                completions@.len() == id,
                match_candidates@.len() == id,
                entries@.len() == id,
                forall|i: int|
                    0 <= i < id ==> is_choice(
                        #[trigger] completions@[i],
                        choices@[i]@,
                        selection,
                    ),
                forall|i: int|
                    0 <= i < id ==> (#[trigger] match_candidates@[i]).id == i
                        && match_candidates@[i].string@ == choices@[i]@,
                forall|i: int|
                    0 <= i < id ==> (#[trigger] entries@[i]).candidate_id == i
                        && entries@[i].ranges@.len() == 0 && entries@[i].string@ == choices@[i]@,
            decreases choices@.len() - id,
        {
            let choice = choices[id].as_str();
            completions.push(
                Completion {
                    replace_range: selection.start..selection.end,
                    new_text: choice.to_owned(),
                    label: CodeLabel { text: choice.to_owned(), filter_range: 0..0 },
                    icon_path: None,
                    color: None,
                    documentation: None,
                    source: CompletionSource::Custom,
                    insert_text_mode: None,
                },
            );
            match_candidates.push(StringMatchCandidate { id, string: choice.to_owned() });
            entries.push(
                StringMatch { candidate_id: id, ranges: Vec::new(), string: choice.to_owned() },
            );
            id = id + 1;
        }
        CompletionMenuContents {
            queried_completions: QueriedCompletions {
                completions,
                query: None,
                is_incomplete: false,
            },
            match_candidates,
            entries,
            selected_item: 0,
            last_rendered_range: None,
        }
    }

    /// Moves the selection, and says whether it changed: then the selected item
    /// is scrolled to.
    pub fn change_selection(&mut self, change: MenuSelectionChange, y_flipped: bool) -> (changed:
        bool)
        requires
            old(self).selected_item < usize::MAX,
        ensures
            final(self).selected_item == change.oriented(y_flipped).selection(
                old(self).selected_item as int,
                old(self).entries@.len() as int,
            ),
            *final(self) == (CompletionMenuContents {
                selected_item: final(self).selected_item,
                ..*old(self)
            }),
            changed == (final(self).selected_item != old(self).selected_item),
    {
        let mut selected_item: usize = self.selected_item;
        let changed = change.apply(&mut selected_item, self.entries.len(), y_flipped);
        self.selected_item = selected_item;
        changed
    }

    /// Whether a line shows an entry.
    pub open spec fn is_row(
        &self,
        row: CompletionRow,
        item_ix: int,
        show_completion_documentation: bool,
    ) -> bool {
        let completion = self.completion(item_ix);
        &&& row.item_ix == item_ix
        &&& row.candidate_id == self.entries@[item_ix].candidate_id
        &&& row.selected == (item_ix == self.selected_item)
        &&& row.bold@ == moved(
            self.entries@[item_ix].ranges@,
            completion.label.filter_range.start as int,
        )
        &&& row.deprecated == completion.is_deprecated()
        &&& text_of(row.documentation_label) == if show_completion_documentation {
            completion.documentation_text()
        } else {
            None
        }
        &&& completion.has_slot(row.start_slot)
    }

    /// The lines of a range of the entries, which is remembered.
    pub fn render(&mut self, range: Range<usize>, show_completion_documentation: bool) -> (rows:
        Vec<CompletionRow>)
        requires
            old(self).wf(),
            range.start <= range.end <= old(self).entries@.len(),
            forall|i: int|
                range.start <= i < range.end ==> can_move(
                    (#[trigger] old(self).entries@[i]).ranges@,
                    old(self).completion(i).label.filter_range.start as int,
                ),
        ensures
            *final(self) == (CompletionMenuContents {
                last_rendered_range: Some(range),
                ..*old(self)
            }),
            rows@.len() == range.end - range.start,
            forall|k: int|
                0 <= k < rows@.len() ==> old(self).is_row(
                    #[trigger] rows@[k],
                    range.start + k,
                    show_completion_documentation,
                ),
    {
        let mut rows: Vec<CompletionRow> = Vec::new();
        let mut item_ix: usize = range.start;
        while item_ix < range.end
            invariant
                *self == *old(self),
                self.wf(),
                range.start <= item_ix <= range.end <= self.entries@.len(),
                forall|i: int|
                    range.start <= i < range.end ==> can_move(
                        (#[trigger] self.entries@[i]).ranges@,
                        self.completion(i).label.filter_range.start as int,
                    ),
                rows@.len() == item_ix - range.start,
                forall|k: int|
                    0 <= k < rows@.len() ==> self.is_row(
                        #[trigger] rows@[k],
                        range.start + k,
                        show_completion_documentation,
                    ),
            decreases range.end - item_ix,
        {
            let mat = &self.entries[item_ix];
            let completion = &self.queried_completions.completions[mat.candidate_id];
            let documentation_label = if show_completion_documentation {
                completion.documentation_label()
            } else {
                None
            };
            let deprecated = match &completion.source {
                CompletionSource::Lsp { deprecated: Some(deprecated) } => *deprecated,
                _ => false,
            };
            rows.push(
                CompletionRow {
                    item_ix,
                    candidate_id: mat.candidate_id,
                    selected: item_ix == self.selected_item,
                    bold: move_ranges(&mat.ranges, completion.label.filter_range.start),
                    deprecated,
                    documentation_label,
                    start_slot: completion.start_slot(),
                },
            );
            item_ix = item_ix + 1;
        }
        self.last_rendered_range = Some(range);
        rows
    }

    /// What is shown beside the menu for the selected item: documentation of more
    /// than a line. Markdown is shown once it is parsed.
    pub open spec fn shows_aside(
        &self,
        aside: Option<Aside>,
        show_completion_documentation: bool,
        is_parsing: bool,
    ) -> bool {
        let candidate_id = self.entries@[self.selected_item as int].candidate_id;
        if !show_completion_documentation {
            aside is None
        } else {
            match self.completion(self.selected_item as int).documentation {
                Some(
                    CompletionDocumentation::MultiLinePlainText(text),
                ) => aside matches Some(Aside::PlainText(shown)) && shown@ == text@,
                Some(
                    CompletionDocumentation::SingleLineAndMultiLinePlainText {
                        plain_text: Some(text),
                        ..
                    },
                ) => aside matches Some(Aside::PlainText(shown)) && shown@ == text@,
                Some(
                    CompletionDocumentation::MultiLineMarkdown(source),
                ) => if source@.len() > 0 && !is_parsing {
                    aside matches Some(Aside::Markdown { candidate_id: id, source: shown }) && id
                        == candidate_id && shown@ == source@
                } else {
                    aside is None
                },
                _ => aside is None,
            }
        }
    }

    pub fn render_aside(&self, show_completion_documentation: bool, is_parsing: bool) -> (aside:
        Option<Aside>)
        requires
            self.wf(),
            show_completion_documentation ==> self.selected_item < self.entries@.len(),
        ensures
            self.shows_aside(aside, show_completion_documentation, is_parsing),
    {
        if !show_completion_documentation {
            return None;
        }
        let candidate_id: usize = self.entries[self.selected_item].candidate_id;
        match &self.queried_completions.completions[candidate_id].documentation {
            Some(CompletionDocumentation::MultiLinePlainText(text)) => Some(
                Aside::PlainText(text.as_str().to_owned()),
            ),
            Some(
                CompletionDocumentation::SingleLineAndMultiLinePlainText {
                    plain_text: Some(text),
                    ..
                },
            ) => Some(Aside::PlainText(text.as_str().to_owned())),
            Some(CompletionDocumentation::MultiLineMarkdown(source)) => if source.as_str().unicode_len()
                > 0 && !is_parsing {
                Some(Aside::Markdown { candidate_id, source: source.as_str().to_owned() })
            } else {
                None
            },
            _ => None,
        }
    }
}

/// Whether candidates are the parts of the completions' labels that are matched.
pub open spec fn are_candidates(
    candidates: Seq<StringMatchCandidate>,
    completions: Seq<Completion>,
) -> bool {
    &&& candidates.len() == completions.len()
    &&& forall|i: int|
        0 <= i < completions.len() ==> {
            let label = completions[i].label;
            &&& (#[trigger] candidates[i]).id == i
            &&& encode_utf8(candidates[i].string@) == encode_utf8(label.text@).subrange(
                label.filter_range.start as int,
                label.filter_range.end as int,
            )
        }
}

/// Whether a completion inserts a choice of a snippet.
pub open spec fn is_choice(completion: Completion, choice: Seq<char>, selection: Range<usize>) -> bool {
    &&& completion.replace_range == selection
    &&& completion.new_text@ == choice
    &&& completion.label.text@ == choice
    &&& completion.label.filter_range == (0usize..0usize)
    &&& completion.icon_path is None
    &&& completion.color is None
    &&& completion.documentation is None
    &&& completion.source is Custom
    &&& completion.insert_text_mode is None
}

impl SurroundingWord {
    /// Whether the word lies in a text.
    pub open spec fn is_in(self, text: &str) -> bool {
        &&& self.start <= self.end
        &&& is_char_boundary(text.spec_bytes(), self.start as int)
        &&& is_char_boundary(text.spec_bytes(), self.end as int)
    }
}

impl<'a> CompletionRequest<'a> {
    /// Whether the offsets are positions in the text, and the words at the
    /// cursor.
    pub open spec fn wf(&self) -> bool {
        &&& is_char_boundary(self.text.spec_bytes(), self.cursor_offset as int)
        &&& self.query_word.is_in(self.text)
        &&& self.replace_word.is_in(self.text)
    }

    /// The part of the word that stands before the cursor.
    pub open spec fn query_bytes(&self) -> Option<Seq<u8>> {
        if self.cursor_offset > self.query_word.start && self.query_word.kind == Some(
            CharKind::Word,
        ) {
            Some(
                self.text.spec_bytes().subrange(
                    self.query_word.start as int,
                    self.cursor_offset as int,
                ),
            )
        } else {
            None
        }
    }

    fn query(&self) -> (r: Option<String>)
        requires
            self.wf(),
        ensures
            bytes_of(r) == self.query_bytes(),
    {
        if self.cursor_offset > self.query_word.start && is_word(self.query_word.kind) {
            Some(slice(self.text, self.query_word.start, self.cursor_offset).to_owned())
        } else {
            None
        }
    }

    /// Whether the trigger is one of the buffer's.
    pub open spec fn is_triggered(&self) -> bool {
        &&& self.trigger matches Some(trigger)
        &&& exists|i: int|
            0 <= i < self.completion_triggers@.len() && (
            #[trigger] self.completion_triggers@[i])@ == trigger@
    }

    fn triggered(&self) -> (r: bool)
        ensures
            r == self.is_triggered(),
    {
        let trigger = match self.trigger {
            Some(trigger) => trigger,
            None => {
                return false;
            },
        };
        let mut i: usize = 0;
        while i < self.completion_triggers.len()
            invariant
                i <= self.completion_triggers@.len(),
                self.trigger == Some(trigger),
                forall|k: int|
                    0 <= k < i ==> (#[trigger] self.completion_triggers@[k])@ != trigger@,
            decreases self.completion_triggers@.len() - i,
        {
            if str_eq(self.completion_triggers[i].as_str(), trigger) {
                return true;
            }
            i = i + 1;
        }
        false
    }

    /// The word that a completion replaces, which needs no completion itself.
    pub open spec fn excluded_bytes(&self) -> Option<Seq<u8>> {
        if self.replace_word.kind == Some(CharKind::Word) {
            Some(
                self.text.spec_bytes().subrange(
                    self.replace_word.start as int,
                    self.replace_word.end as int,
                ),
            )
        } else {
            None
        }
    }

    /// What is replaced: the word at the cursor, or nothing at the cursor.
    pub open spec fn replaced(&self) -> Range<usize> {
        if self.replace_word.kind == Some(CharKind::Word) {
            self.replace_word.start..self.replace_word.end
        } else {
            self.cursor_offset..self.cursor_offset
        }
    }

    /// Whether a plan is what is to be fetched. Words are always asked for where
    /// there is no provider.
    pub open spec fn is_plan(&self, plan: FetchPlan) -> bool {
        &&& bytes_of(plan.query) == self.query_bytes()
        &&& plan.trigger_kind == if self.is_triggered() {
            CompletionTriggerKind::TriggerCharacter
        } else {
            CompletionTriggerKind::Invoked
        }
        &&& text_of(plan.trigger_character) == if self.is_triggered() {
            Some(self.trigger->0@)
        } else {
            None
        }
        &&& plan.replace_range == self.replaced()
        &&& bytes_of(plan.word_to_exclude) == self.excluded_bytes()
        &&& plan.ask_provider == self.has_provider
        &&& plan.ask_words == (!self.has_provider || self.words != WordsCompletionMode::Disabled)
        &&& plan.skip_digits == match plan.query {
            Some(query) => no_digits(query@),
            None => true,
        }
        &&& plan.words == self.words
    }

    fn plan(&self, query: Option<String>) -> (plan: FetchPlan)
        requires
            self.wf(),
            bytes_of(query) == self.query_bytes(),
        ensures
            self.is_plan(plan),
    {
        let is_triggered = self.triggered();
        let trigger_kind = if is_triggered {
            CompletionTriggerKind::TriggerCharacter
        } else {
            CompletionTriggerKind::Invoked
        };
        let trigger_character = match self.trigger {
            Some(trigger) => if is_triggered {
                Some(trigger.to_owned())
            } else {
                None
            },
            None => None,
        };
        let (replace_range, word_to_exclude) = if is_word(self.replace_word.kind) {
            let word = slice(self.text, self.replace_word.start, self.replace_word.end);
            (self.replace_word.start..self.replace_word.end, Some(word.to_owned()))
        } else {
            (self.cursor_offset..self.cursor_offset, None)
        };
        let ask_words = !self.has_provider || match self.words {
            WordsCompletionMode::Disabled => false,
            _ => true,
        };
        let skip_digits = skips_digits(&query);
        FetchPlan {
            query,
            trigger_kind,
            trigger_character,
            replace_range,
            word_to_exclude,
            ask_provider: self.has_provider,
            ask_words,
            skip_digits,
            words: self.words,
        }
    }
}

fn is_word(kind: Option<CharKind>) -> (r: bool)
    ensures
        r == (kind == Some(CharKind::Word)),
{
    match kind {
        Some(CharKind::Word) => true,
        _ => false,
    }
}

/// Whether completions that were fetched for a query hold those of another one:
/// it goes on where the query ended.
pub open spec fn covers(initial_query: Option<Seq<u8>>, query: Option<Seq<u8>>) -> bool {
    match (initial_query, query) {
        (Some(initial_query), Some(query)) => has_prefix(query, initial_query),
        (None, _) => true,
        (Some(_), None) => false,
    }
}

impl QueriedCompletions {
    /// Whether filtering is enough for a query.
    pub open spec fn can_filter(&self, query: Option<Seq<u8>>, filter_completions: bool) -> bool {
        !self.is_incomplete && filter_completions && covers(bytes_of(self.query), query)
    }

    fn filters(&self, query: &Option<String>, filter_completions: bool) -> (r: bool)
        ensures
            r == self.can_filter(bytes_of(*query), filter_completions),
    {
        if self.is_incomplete || !filter_completions {
            return false;
        }
        match (&self.query, query) {
            (Some(initial_query), Some(query)) => starts_with(
                query.as_str(),
                initial_query.as_str(),
            ),
            (None, _) => true,
            _ => false,
        }
    }
}

/// The completions of all responses, in order.
pub open spec fn all_completions(responses: Seq<CompletionResponse>) -> Seq<Completion>
    decreases responses.len(),
{
    if responses.len() == 0 {
        Seq::empty()
    } else {
        responses[0].completions@ + all_completions(responses.drop_first())
    }
}

/// Whether one of the responses is incomplete.
pub open spec fn any_incomplete(responses: Seq<CompletionResponse>) -> bool {
    exists|i: int| 0 <= i < responses.len() && (#[trigger] responses[i]).is_incomplete
}

/// Whether a word is worth a completion: it is not the one that is replaced, and
/// no completion inserts it.
pub open spec fn is_new_word(
    word: Seq<char>,
    word_to_exclude: Option<Seq<char>>,
    completions: Seq<Completion>,
) -> bool {
    &&& word_to_exclude != Some(word)
    &&& forall|i: int| 0 <= i < completions.len() ==> (#[trigger] completions[i]).new_text@ != word
}

/// The words that are worth a completion, in order.
pub open spec fn new_words(
    words: Seq<(String, Range<usize>)>,
    word_to_exclude: Option<Seq<char>>,
    completions: Seq<Completion>,
) -> Seq<(String, Range<usize>)>
    decreases words.len(),
{
    if words.len() == 0 {
        Seq::empty()
    } else {
        let before = new_words(words.drop_last(), word_to_exclude, completions);
        if is_new_word(words.last().0@, word_to_exclude, completions) {
            before.push(words.last())
        } else {
            before
        }
    }
}

/// Whether a completion inserts a word of the buffer.
pub open spec fn is_word_completion(
    completion: Completion,
    word: (String, Range<usize>),
    replace_range: Range<usize>,
) -> bool {
    &&& completion.replace_range == replace_range
    &&& completion.new_text@ == word.0@
    &&& completion.label.text@ == word.0@
    &&& completion.label.filter_range == (0usize..(encode_utf8(word.0@).len() as usize))
    &&& completion.label.wf()
    &&& completion.icon_path is None
    &&& completion.color is None
    &&& completion.documentation is None
    &&& completion.source == (CompletionSource::BufferWord { word_range: word.1, resolved: false })
    &&& completion.insert_text_mode == Some(InsertTextMode::AsIs)
}

/// Whether completions are those of the responses, followed by those of words.
pub open spec fn are_completions(
    completions: Seq<Completion>,
    fetched: Seq<Completion>,
    words: Seq<(String, Range<usize>)>,
    replace_range: Range<usize>,
) -> bool {
    &&& completions.len() == fetched.len() + words.len()
    &&& completions.take(fetched.len() as int) == fetched
    &&& forall|i: int|
        0 <= i < words.len() ==> is_word_completion(
            completions[fetched.len() + i],
            #[trigger] words[i],
            replace_range,
        )
}

fn tests_new_word(
    word: &str,
    word_to_exclude: &Option<String>,
    completions: &Vec<Completion>,
    count: usize,
) -> (r: bool)
    requires
        count <= completions@.len(),
    ensures
        r == is_new_word(word@, text_of(*word_to_exclude), completions@.take(count as int)),
{
    if let Some(excluded) = word_to_exclude {
        if str_eq(excluded.as_str(), word) {
            return false;
        }
    }
    let mut i: usize = 0;
    while i < count
        invariant
            i <= count <= completions@.len(),
            text_of(*word_to_exclude) != Some(word@),
            forall|k: int| 0 <= k < i ==> (#[trigger] completions@[k]).new_text@ != word@,
        decreases count - i,
    {
        if str_eq(completions[i].new_text.as_str(), word) {
            assert(completions@.take(count as int)[i as int].new_text@ == word@);
            return false;
        }
        i = i + 1;
    }
    true
}

impl FetchPlan {
    /// The responses that count: none where the provider failed.
    pub open spec fn responses(responses: Option<Vec<CompletionResponse>>) -> Seq<
        CompletionResponse,
    > {
        match responses {
            Some(responses) => responses@,
            None => Seq::empty(),
        }
    }

    /// The words that count: with the fallback, none where there are responses.
    pub open spec fn words(
        &self,
        responses: Seq<CompletionResponse>,
        words: Seq<(String, Range<usize>)>,
    ) -> Seq<(String, Range<usize>)> {
        if !self.ask_words || (self.words == WordsCompletionMode::Fallback && responses.len() > 0) {
            Seq::empty()
        } else {
            new_words(words, text_of(self.word_to_exclude), all_completions(responses))
        }
    }
}

impl CompletionMenu {
    pub fn new(position: Anchor) -> (r: Self)
        ensures
            r.position == position,
            r.contents is None,
            r.tasks@.len() == 0,
    {
        CompletionMenu { position, contents: None, tasks: Vec::new() }
    }

    /// Moves the selection, where there are completions, and says whether it
    /// changed.
    pub fn change_selection(&mut self, change: MenuSelectionChange, y_flipped: bool) -> (changed:
        bool)
        requires
            old(self).contents matches Some(contents) ==> contents.selected_item < usize::MAX,
        ensures
            final(self).position == old(self).position,
            final(self).tasks == old(self).tasks,
            old(self).contents is None ==> final(self).contents is None && !changed,
            old(self).contents matches Some(before) ==> {
                &&& final(self).contents matches Some(after)
                &&& after.selected_item == change.oriented(y_flipped).selection(
                    before.selected_item as int,
                    before.entries@.len() as int,
                )
                &&& after == (CompletionMenuContents {
                    selected_item: after.selected_item,
                    ..before
                })
                &&& changed == (after.selected_item != before.selected_item)
            },
    {
        match &mut self.contents {
            Some(contents) => contents.change_selection(change, y_flipped),
            None => false,
        }
    }

    pub open spec fn is_visible(&self) -> bool {
        self.contents matches Some(contents) && contents.entries@.len() > 0
    }

    pub fn visible(&self) -> (r: bool)
        ensures
            r == self.is_visible(),
    {
        match &self.contents {
            Some(contents) => contents.entries.len() > 0,
            None => false,
        }
    }

    pub fn origin(&self) -> (r: ContextMenuOrigin)
        ensures
            r == ContextMenuOrigin::Cursor,
    {
        ContextMenuOrigin::Cursor
    }

    /// Whether something can be shown beside the menu: its selection is an entry.
    pub open spec fn can_show_aside(&self, show_completion_documentation: bool) -> bool {
        self.contents matches Some(contents) ==> {
            &&& contents.wf()
            &&& show_completion_documentation ==> contents.selected_item < contents.entries@.len()
        }
    }

    /// What is shown beside the menu, where there are completions.
    pub fn render_aside(&self, show_completion_documentation: bool, is_parsing: bool) -> (aside:
        Option<Aside>)
        requires
            self.can_show_aside(show_completion_documentation),
        ensures
            match self.contents {
                Some(contents) => contents.shows_aside(
                    aside,
                    show_completion_documentation,
                    is_parsing,
                ),
                None => aside is None,
            },
    {
        match &self.contents {
            Some(contents) => contents.render_aside(show_completion_documentation, is_parsing),
            None => None,
        }
    }

    /// Whether the cursor is where the menu is.
    pub open spec fn is_at(&self, request: &CompletionRequest<'_>) -> bool {
        &&& request.cursor_position.buffer_id == self.position.buffer_id
        &&& request.cursor_position == self.position || request.cursor_offset
            == request.menu_offset
    }

    /// Whether the completions that are there are enough.
    pub open spec fn can_filter(&self, request: &CompletionRequest<'_>) -> bool {
        &&& self.contents matches Some(contents)
        &&& contents.queried_completions.can_filter(
            request.query_bytes(),
            !request.has_provider || request.filter_completions,
        )
    }

    /// Decides how to get the completions at the cursor. A fetch takes the place
    /// of those that are under way.
    pub fn query_completions(&mut self, request: &CompletionRequest<'_>) -> (step: QueryStep)
        requires
            request.wf(),
        ensures
            step is Elsewhere <==> !old(self).is_at(request),
            step is Filter <==> old(self).is_at(request) && old(self).can_filter(request),
            step matches QueryStep::Fetch(plan) ==> request.is_plan(plan),
            final(self).position == old(self).position,
            final(self).contents == old(self).contents,
            !(step is Fetch) ==> final(self).tasks == old(self).tasks,
            step is Fetch ==> final(self).tasks@.len() == 1 && bytes_of(
                final(self).tasks@[0].query,
            ) == request.query_bytes(),
    {
        if !same_buffer(request.cursor_position.buffer_id, self.position.buffer_id) {
            return QueryStep::Elsewhere;
        }
        if request.cursor_position != self.position {
            if request.cursor_offset != request.menu_offset {
                return QueryStep::Elsewhere;
            }
        }
        let query = request.query();
        let filter_completions = !request.has_provider || request.filter_completions;
        if let Some(contents) = &self.contents {
            if contents.queried_completions.filters(&query, filter_completions) {
                return QueryStep::Filter;
            }
        }
        let mut tasks: Vec<CompletionTask> = Vec::new();
        tasks.push(CompletionTask { query: copy_text(&query) });
        self.tasks = tasks;
        QueryStep::Fetch(request.plan(query))
    }

    /// Shows what was fetched: the completions of the provider's responses, if
    /// it gave any, and the words of the buffer, which are sorted and all
    /// different.
    pub fn receive_completions(
        &mut self,
        plan: FetchPlan,
        responses: Option<Vec<CompletionResponse>>,
        words: Vec<(String, Range<usize>)>,
    )
        requires
            forall|i: int|
                0 <= i < all_completions(FetchPlan::responses(responses)).len() ==> (
                #[trigger] all_completions(FetchPlan::responses(responses))[i]).label.wf(),
        ensures
            final(self).position == old(self).position,
            final(self).tasks == old(self).tasks,
            ({
                let received = FetchPlan::responses(responses);
                let fetched = all_completions(received);
                let new_words = plan.words(received, words@);
                &&& final(self).contents is None <==> fetched.len() + new_words.len() == 0
                &&& final(self).contents matches Some(contents) ==> {
                    &&& are_completions(
                        contents.queried_completions.completions@,
                        fetched,
                        new_words,
                        plan.replace_range,
                    )
                    &&& contents.queried_completions.query == plan.query
                    &&& contents.queried_completions.is_incomplete == any_incomplete(received)
                    &&& are_candidates(
                        contents.match_candidates@,
                        contents.queried_completions.completions@,
                    )
                    &&& contents.entries@.len() == 0
                    &&& contents.selected_item == 0
                    &&& contents.last_rendered_range is None
                    &&& contents.wf()
                }
            }),
    {
        let ghost received = FetchPlan::responses(responses);
        let ghost fetched = all_completions(received);
        let mut completions: Vec<Completion> = Vec::new();
        let mut is_incomplete = false;
        let mut use_words = plan.ask_words;
        let mut responses: Vec<CompletionResponse> = match responses {
            Some(responses) => responses,
            None => Vec::new(),
        };
        assert(responses@ =~= received);
        if responses.len() > 0 && plan.words == WordsCompletionMode::Fallback {
            use_words = false;
        }
        let ghost mut taken: int = 0;
        while responses.len() > 0
            invariant
                0 <= taken <= received.len(),
                responses@ == received.skip(taken),
                completions@ + all_completions(responses@) == fetched,
                is_incomplete == any_incomplete(received.take(taken)),
            decreases responses@.len(),
        {
            let ghost before = responses@;
            let ghost done = completions@;
            let mut response = responses.remove(0);
            proof {
                assert(response == received[taken]);
                assert(responses@ =~= before.drop_first());
                assert(received.skip(taken + 1) =~= before.drop_first());
                let now = received.take(taken + 1);
                assert(now[taken] == response);
                if any_incomplete(received.take(taken)) {
                    let i = choose|i: int|
                        0 <= i < taken && (#[trigger] received.take(taken)[i]).is_incomplete;
                    assert(now[i].is_incomplete);
                }
                if any_incomplete(now) {
                    let i = choose|i: int| 0 <= i < now.len() && (#[trigger] now[i]).is_incomplete;
                    if i < taken {
                        assert(received.take(taken)[i].is_incomplete);
                    }
                }
            }
            is_incomplete = is_incomplete || response.is_incomplete;
            completions.append(&mut response.completions);
            proof {
                taken = taken + 1;
                assert(completions@ + all_completions(responses@) =~= done + all_completions(
                    before,
                ));
            }
        }
        proof {
            assert(completions@ =~= fetched);
            assert(received.take(taken) =~= received);
        }
        let count: usize = completions.len();
        let ghost excluded = text_of(plan.word_to_exclude);
        let ghost kept = Seq::<(String, Range<usize>)>::empty();
        assert(are_completions(completions@, fetched, kept, plan.replace_range)) by {
            assert(completions@.take(count as int) =~= fetched);
        }
        if use_words {
            let mut i: usize = 0;
            while i < words.len()
                invariant
                    i <= words@.len(),
                    count == fetched.len(),
                    excluded == text_of(plan.word_to_exclude),
                    kept == new_words(words@.take(i as int), excluded, fetched),
                    are_completions(completions@, fetched, kept, plan.replace_range),
                decreases words@.len() - i,
            {
                proof {
                    let now = words@.take(i + 1);
                    assert(now.drop_last() =~= words@.take(i as int));
                    assert(now.last() == words@[i as int]);
                }
                let word = words[i].0.as_str();
                if tests_new_word(word, &plan.word_to_exclude, &completions, count) {
                    let ghost before = completions@;
                    let completion = Completion {
                        replace_range: plan.replace_range.start..plan.replace_range.end,
                        new_text: word.to_owned(),
                        label: CodeLabel::plain(word.to_owned()),
                        icon_path: None,
                        color: None,
                        documentation: None,
                        source: CompletionSource::BufferWord {
                            word_range: words[i].1.start..words[i].1.end,
                            resolved: false,
                        },
                        insert_text_mode: Some(InsertTextMode::AsIs),
                    };
                    assert(is_word_completion(completion, words@[i as int], plan.replace_range));
                    completions.push(completion);
                    proof {
                        let grown = kept.push(words@[i as int]);
                        assert(completions@.take(fetched.len() as int) =~= before.take(
                            fetched.len() as int,
                        ));
                        assert forall|k: int| 0 <= k < grown.len() implies is_word_completion(
                            completions@[fetched.len() + k],
                            #[trigger] grown[k],
                            plan.replace_range,
                        ) by {
                            if k < kept.len() {
                                assert(grown[k] == kept[k]);
                                assert(completions@[fetched.len() + k] == before[fetched.len()
                                    + k]);
                            }
                        }
                        kept = grown;
                    }
                }
                i = i + 1;
            }
            assert(words@.take(i as int) =~= words@);
        }
        assert(kept == plan.words(received, words@));
        if completions.len() == 0 {
            self.contents = None;
        } else {
            assert forall|i: int| 0 <= i < completions@.len() implies (
            #[trigger] completions@[i]).label.wf() by {
                if i < fetched.len() {
                    assert(completions@[i] == completions@.take(fetched.len() as int)[i]);
                    assert(fetched[i].label.wf());
                } else {
                    let word = kept[i - fetched.len()];
                    assert(is_word_completion(completions@[i], word, plan.replace_range));
                }
            }
            self.contents = Some(
                CompletionMenuContents::new_completions(
                    QueriedCompletions { completions, query: plan.query, is_incomplete },
                ),
            );
        }
    }
}

fn same_buffer(a: Option<u64>, b: Option<u64>) -> (r: bool)
    ensures
        r == (a == b),
{
    match (a, b) {
        (Some(a), Some(b)) => a == b,
        (None, None) => true,
        _ => false,
    }
}

/// Completions that cover a query also cover every query that it covers: while a
/// word is typed on, one complete fetch is enough.
pub proof fn law_covers_is_transitive(
    first: Option<Seq<u8>>,
    second: Option<Seq<u8>>,
    third: Option<Seq<u8>>,
)
    requires
        covers(first, second),
        covers(second, third),
        second is Some,
    ensures
        covers(first, third),
{
    if first is Some && third is Some {
        let a = first->0;
        let b = second->0;
        let c = third->0;
        assert(c.subrange(0, a.len() as int) =~= c.subrange(0, b.len() as int).subrange(
            0,
            a.len() as int,
        ));
    }
}

/// A word that gets a completion is one of the words, is not the one that is
/// replaced, and no fetched completion inserts it.
pub proof fn law_words_are_new(
    words: Seq<(String, Range<usize>)>,
    word_to_exclude: Option<Seq<char>>,
    completions: Seq<Completion>,
    i: int,
)
    requires
        0 <= i < new_words(words, word_to_exclude, completions).len(),
    ensures
        ({
            let word = new_words(words, word_to_exclude, completions)[i];
            words.contains(word) && is_new_word(word.0@, word_to_exclude, completions)
        }),
    decreases words.len(),
{
    let before = new_words(words.drop_last(), word_to_exclude, completions);
    if i < before.len() {
        law_words_are_new(words.drop_last(), word_to_exclude, completions, i);
        let shorter = words.drop_last();
        let k = choose|k: int| 0 <= k < shorter.len() && shorter[k] == before[i];
        assert(words[k] == before[i]);
    } else {
        assert(words[words.len() - 1] == words.last());
    }
}

/// The completions of all responses count, in the order of the responses.
pub proof fn law_all_responses_count(responses: Seq<CompletionResponse>)
    ensures
        all_completions(responses) == responses.map_values(
            |response: CompletionResponse| response.completions@,
        ).flatten(),
    decreases responses.len(),
{
    let completions = |response: CompletionResponse| response.completions@;
    if responses.len() > 0 {
        law_all_responses_count(responses.drop_first());
        assert(responses.map_values(completions).drop_first() =~= responses.drop_first().map_values(
            completions,
        ));
    } else {
        assert(responses.map_values(completions) =~= Seq::empty());
    }
}

/// Every word gets a completion, in the order of the words, but for the one that is
/// replaced and those that a fetched completion inserts.
pub proof fn law_new_words_are_kept(
    words: Seq<(String, Range<usize>)>,
    word_to_exclude: Option<Seq<char>>,
    completions: Seq<Completion>,
)
    ensures
        new_words(words, word_to_exclude, completions) == words.filter(
            |word: (String, Range<usize>)|
                word_to_exclude != Some(word.0@) && !completions.map_values(
                    |completion: Completion| completion.new_text@,
                ).contains(word.0@),
        ),
    decreases words.len(),
{
    reveal(Seq::filter);
    if words.len() > 0 {
        law_new_words_are_kept(words.drop_last(), word_to_exclude, completions);
        let inserted = completions.map_values(|completion: Completion| completion.new_text@);
        let word = words.last().0@;
        if inserted.contains(word) {
            let k = choose|k: int| 0 <= k < inserted.len() && inserted[k] == word;
            assert(completions[k].new_text@ == word);
        } else {
            assert forall|i: int| 0 <= i < completions.len() implies (
            #[trigger] completions[i]).new_text@ != word by {
                assert(inserted[i] == completions[i].new_text@);
            }
        }
    }
}

/// Words count only where they are asked for, as a fallback only where there is no
/// response, and otherwise every new word does.
pub proof fn law_when_words_count(
    plan: FetchPlan,
    responses: Seq<CompletionResponse>,
    words: Seq<(String, Range<usize>)>,
)
    ensures
        !plan.ask_words ==> plan.words(responses, words).len() == 0,
        plan.words == WordsCompletionMode::Fallback && responses.len() > 0 ==> plan.words(
            responses,
            words,
        ).len() == 0,
        plan.ask_words && plan.words != WordsCompletionMode::Fallback ==> plan.words(
            responses,
            words,
        ) == new_words(words, text_of(plan.word_to_exclude), all_completions(responses)),
        plan.ask_words && responses.len() == 0 && plan.word_to_exclude is None ==> plan.words(
            responses,
            words,
        ) == words,
{
    if plan.ask_words && responses.len() == 0 && plan.word_to_exclude is None {
        lemma_all_new(words);
    }
}

proof fn lemma_all_new(words: Seq<(String, Range<usize>)>)
    ensures
        new_words(words, None, Seq::empty()) == words,
    decreases words.len(),
{
    if words.len() > 0 {
        lemma_all_new(words.drop_last());
        assert(words.drop_last().push(words.last()) =~= words);
    }
}

/// Completions of a query are enough while the word is typed on, and for no other
/// query; those of no query are enough for every one.
pub proof fn law_typing_on(query: Seq<u8>, more: Seq<u8>, other: Option<Seq<u8>>)
    ensures
        covers(Some(query), Some(query + more)),
        covers(None, other),
        covers(Some(query), other) ==> (other matches Some(longer) && longer == query
            + longer.skip(query.len() as int)),
{
    assert((query + more).subrange(0, query.len() as int) =~= query);
    if covers(Some(query), other) && other is Some {
        let longer = other->0;
        assert(longer =~= longer.subrange(0, query.len() as int) + longer.skip(
            query.len() as int,
        ));
    }
}

/// What is there is filtered exactly where it is complete, may be filtered, and was
/// fetched for no query or for one that the present query goes on.
pub proof fn law_when_filtering_is_enough(menu: CompletionMenu, request: CompletionRequest<'_>)
    ensures
        menu.can_filter(&request) <==> {
            &&& menu.contents matches Some(contents)
            &&& !contents.queried_completions.is_incomplete
            &&& request.has_provider ==> request.filter_completions
            &&& match contents.queried_completions.query {
                None => true,
                Some(before) => request.query_bytes() matches Some(now) && encode_utf8(
                    before@,
                ).is_prefix_of(now),
            }
        },
{
    if let Some(contents) = menu.contents {
        if let Some(before) = contents.queried_completions.query {
            if let Some(now) = request.query_bytes() {
                let start = encode_utf8(before@);
                if start.len() <= now.len() {
                    assert(now.subrange(0, start.len() as int) =~= now.take(start.len() as int));
                }
            }
        }
    }
}

/// The query is what stands between the start of a word and the cursor; there is one
/// exactly where the cursor is behind the start of a word.
pub proof fn law_query_is_typed_part(request: CompletionRequest<'_>)
    requires
        request.wf(),
    ensures
        match request.query_bytes() {
            Some(query) => {
                &&& query.len() > 0
                &&& request.query_word.kind == Some(CharKind::Word)
                &&& query.len() == request.cursor_offset - request.query_word.start
                &&& request.text.spec_bytes().take(request.cursor_offset as int)
                    == request.text.spec_bytes().take(request.query_word.start as int) + query
            },
            None => request.query_word.kind != Some(CharKind::Word) || request.cursor_offset
                <= request.query_word.start,
        },
{
    encode_utf8_valid_utf8(request.text@);
    lemma_boundary_in_range(request.text.spec_bytes(), request.cursor_offset as int);
    lemma_boundary_in_range(request.text.spec_bytes(), request.query_word.start as int);
    if let Some(query) = request.query_bytes() {
        let bytes = request.text.spec_bytes();
        assert(bytes.take(request.cursor_offset as int) =~= bytes.take(
            request.query_word.start as int,
        ) + query);
    }
}

/// The word that is replaced is the one that gets no completion; where there is no
/// word, a completion is inserted at the cursor.
pub proof fn law_replaced_word_is_excluded(request: CompletionRequest<'_>)
    ensures
        match request.excluded_bytes() {
            Some(word) => {
                &&& request.replace_word.kind == Some(CharKind::Word)
                &&& request.replaced() == (request.replace_word.start..request.replace_word.end)
                &&& word == request.text.spec_bytes().subrange(
                    request.replaced().start as int,
                    request.replaced().end as int,
                )
            },
            None => {
                &&& request.replace_word.kind != Some(CharKind::Word)
                &&& request.replaced().start == request.cursor_offset
                &&& request.replaced().end == request.cursor_offset
            },
        },
{
}

/// A fetch always asks for something: the provider where there is one, and words
/// where there is none or they are wanted. It names a trigger exactly where one of
/// the buffer's triggers led to it.
pub proof fn law_plan_of_request(request: CompletionRequest<'_>, plan: FetchPlan)
    requires
        request.is_plan(plan),
    ensures
        plan.ask_provider || plan.ask_words,
        plan.ask_provider <==> request.has_provider,
        !plan.ask_words <==> request.has_provider && request.words
            == WordsCompletionMode::Disabled,
        plan.words == request.words,
        plan.trigger_kind is TriggerCharacter <==> plan.trigger_character is Some,
        plan.trigger_character matches Some(trigger) ==> {
            &&& request.trigger matches Some(asked) && asked@ == trigger@
            &&& request.completion_triggers@.map_values(|t: String| t@).contains(trigger@)
        },
        plan.query is None ==> plan.skip_digits,
        plan.query matches Some(query) ==> (plan.skip_digits <==> forall|k: int|
            0 <= k < query@.len() ==> !('0' <= #[trigger] query@[k] <= '9')),
        plan.replace_range == request.replaced(),
{
    if let Some(trigger) = plan.trigger_character {
        let triggers = request.completion_triggers@;
        let i = choose|i: int|
            0 <= i < triggers.len() && (#[trigger] triggers[i])@ == trigger@;
        assert(triggers.map_values(|t: String| t@)[i] == trigger@);
    }
}

/// Each matched part is as long as it was and lies behind the start of the part of the
/// label that is matched as far as before.
pub proof fn law_bold_is_moved(ranges: Seq<Range<usize>>, offset: int, i: int)
    requires
        0 <= offset,
        can_move(ranges, offset),
        0 <= i < ranges.len(),
    ensures
        moved(ranges, offset).len() == ranges.len(),
        moved(ranges, offset)[i].start == offset + ranges[i].start,
        moved(ranges, offset)[i].end == offset + ranges[i].end,
{
}

/// The documentation in a row is a line that is not blank.
pub proof fn law_documentation_line(completion: Completion)
    ensures
        completion.documentation_text() matches Some(line) ==> !blank(line) && (
        (completion.documentation matches Some(CompletionDocumentation::SingleLine(text)) && text@
            == line) || (completion.documentation matches Some(
            CompletionDocumentation::SingleLineAndMultiLinePlainText { single_line, .. },
        ) && single_line@ == line)),
        completion.documentation matches Some(CompletionDocumentation::SingleLine(text)) ==> (
        !blank(text@) ==> completion.documentation_text() == Some(text@)),
        completion.documentation matches Some(
            CompletionDocumentation::SingleLineAndMultiLinePlainText { single_line, .. },
        ) ==> (!blank(single_line@) ==> completion.documentation_text() == Some(single_line@)),
{
}

/// Whether a completion puts a text in a place, under the text as its label.
pub open spec fn inserts(completion: Completion, text: Seq<char>, place: Range<usize>) -> bool {
    &&& completion.new_text@ == text
    &&& completion.label.text@ == text
    &&& completion.replace_range == place
}

/// What was fetched comes first, unchanged, then each word, which replaces the word at
/// the cursor as it stands and is matched as a whole.
pub proof fn law_received_completions(
    completions: Seq<Completion>,
    fetched: Seq<Completion>,
    words: Seq<(String, Range<usize>)>,
    place: Range<usize>,
)
    requires
        are_completions(completions, fetched, words, place),
    ensures
        completions.len() == fetched.len() + words.len(),
        forall|i: int| 0 <= i < fetched.len() ==> #[trigger] completions[i] == fetched[i],
        forall|i: int|
            0 <= i < words.len() ==> {
                let completion = completions[fetched.len() + i];
                &&& inserts(completion, (#[trigger] words[i]).0@, place)
                &&& completion.label.filter_range.start == 0
                &&& completion.label.filter_range.end == encode_utf8(words[i].0@).len() as usize
                &&& completion.insert_text_mode == Some(InsertTextMode::AsIs)
            },
{
    assert forall|i: int| 0 <= i < fetched.len() implies #[trigger] completions[i]
        == fetched[i] by {
        assert(completions.take(fetched.len() as int)[i] == completions[i]);
    }
}

/// A choice of a snippet replaces what is selected.
pub proof fn law_choice_replaces_selection(
    completion: Completion,
    choice: Seq<char>,
    selection: Range<usize>,
)
    requires
        is_choice(completion, choice, selection),
    ensures
        inserts(completion, choice, selection),
{
}

/// A row is marked as selected only where its entry is, shows documentation only where
/// that is wanted, and shows a color in place of an icon.
pub proof fn law_rows_show_entries(
    contents: CompletionMenuContents,
    row: CompletionRow,
    item_ix: int,
    documented: bool,
)
    requires
        contents.is_row(row, item_ix, documented),
    ensures
        row.selected <==> contents.selected_item == item_ix,
        row.item_ix == item_ix,
        row.candidate_id == contents.entries@[item_ix].candidate_id,
        !documented ==> row.documentation_label is None,
        documented ==> text_of(row.documentation_label) == contents.completion(
            item_ix,
        ).documentation_text(),
        contents.completion(item_ix).color matches Some(color) ==> row.start_slot == Some(
            StartSlot::Color(color),
        ),
        contents.completion(item_ix).color is None && contents.completion(item_ix).icon_path is None
            ==> row.start_slot is None,
        contents.completion(item_ix).color is None ==> (contents.completion(
            item_ix,
        ).icon_path matches Some(path) ==> row.start_slot matches Some(StartSlot::Icon(icon))
            && icon@ == path@),
        row.bold@.len() == contents.entries@[item_ix].ranges@.len(),
        row.deprecated <==> contents.completion(
            item_ix,
        ).source == (CompletionSource::Lsp { deprecated: Some(true) }),
{
}

/// Nothing is shown beside the menu unless documentation is wanted, a line of
/// documentation never is, plain text of more lines always is, and markdown is once it
/// is parsed, unless it is empty.
pub proof fn law_asides(
    contents: CompletionMenuContents,
    aside: Option<Aside>,
    documented: bool,
    is_parsing: bool,
)
    requires
        contents.shows_aside(aside, documented, is_parsing),
    ensures
        !documented ==> aside is None,
        contents.completion(contents.selected_item as int).documentation matches Some(
            CompletionDocumentation::SingleLine(_),
        ) ==> aside is None,
        contents.completion(contents.selected_item as int).documentation is None ==> aside is None,
        documented ==> (contents.completion(
            contents.selected_item as int,
        ).documentation matches Some(CompletionDocumentation::MultiLinePlainText(text)) ==> (
        aside matches Some(Aside::PlainText(shown)) && shown@ == text@)),
        documented ==> (contents.completion(
            contents.selected_item as int,
        ).documentation matches Some(CompletionDocumentation::MultiLineMarkdown(source)) ==> (
        if is_parsing || source@.len() == 0 {
            aside is None
        } else {
            aside matches Some(Aside::Markdown { source: shown, .. }) && shown@ == source@
        })),
{
}

} // verus!
