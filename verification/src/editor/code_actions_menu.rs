//! The menu of code actions: tasks, actions of language servers and debug
//! scenarios.
use crate::editor::menu_selection::MenuSelectionChange;
use std::ops::Range;
use vstd::prelude::*;
use vstd::string::*;

verus! {

/// A task that can be run, with the number of its source.
#[derive(Debug)]
pub struct ResolvedTask {
    pub source: u64,
    pub id: u64,
    pub resolved_label: String,
}

/// An action of a provider, on an excerpt.
#[derive(Debug)]
pub struct AvailableCodeAction {
    pub excerpt_id: u64,
    pub provider: u64,
    pub action: u64,
    pub title: String,
}

#[derive(Debug)]
pub struct DebugScenario {
    pub id: u64,
    pub label: String,
}

#[derive(Debug)]
pub struct CodeActionContents {
    pub tasks: Option<Vec<ResolvedTask>>,
    pub actions: Option<Vec<AvailableCodeAction>>,
    pub debug_scenarios: Vec<DebugScenario>,
}

#[derive(Debug)]
pub enum CodeActionsItem<'a> {
    Task(&'a ResolvedTask),
    CodeAction(&'a AvailableCodeAction),
    DebugScenario(&'a DebugScenario),
}

/// Where the menu of code actions was opened from, if not from the keyboard.
#[derive(Debug, Copy, Clone, PartialEq, Eq, Structural)]
pub enum CodeActionSource {
    Indicator(u32),
    QuickActionBar,
}

#[derive(Debug, Copy, Clone, PartialEq, Eq, Structural)]
pub enum ContextMenuOrigin {
    Cursor,
    GutterIndicator(u32),
    QuickActionBar,
}

#[derive(Debug)]
pub struct CodeActionsMenu {
    pub actions: CodeActionContents,
    pub selected_item: usize,
    /// Whether the list is drawn from the bottom.
    pub y_flipped: bool,
    pub deployed_from: Option<CodeActionSource>,
}

/// A line of the menu.
#[derive(Debug)]
pub struct CodeActionRow {
    pub item_ix: usize,
    pub selected: bool,
    pub text: String,
}

/// A text without its newlines.
pub open spec fn without_newlines(text: Seq<char>) -> Seq<char>
    decreases text.len(),
{
    if text.len() == 0 {
        Seq::empty()
    } else {
        let before = without_newlines(text.drop_last());
        if text.last() == '\n' {
            before
        } else {
            before.push(text.last())
        }
    }
}

/// Takes the newlines out of a text.
fn remove_newlines(text: &str) -> (r: String)
    ensures
        r@ == without_newlines(text@),
{
    let mut r = "".to_owned();
    let len: usize = text.unicode_len();
    let mut i: usize = 0;
    proof {
        reveal_strlit("");
        assert(r@ =~= without_newlines(text@.take(0)));
    }
    while i < len
        invariant
            i <= len == text@.len(),
            r@ == without_newlines(text@.take(i as int)),
        decreases len - i,
    {
        let c = text.get_char(i);
        proof {
            let now = text@.take(i + 1);
            assert(now.drop_last() =~= text@.take(i as int));
            assert(now.last() == c);
        }
        if c != '\n' {
            r.push(c);
        }
        i = i + 1;
    }
    assert(text@.take(i as int) =~= text@);
    r
}

impl<'a> CodeActionsItem<'a> {
    pub open spec fn label_text(self) -> Seq<char> {
        match self {
            CodeActionsItem::Task(task) => task.resolved_label@,
            CodeActionsItem::CodeAction(action) => action.title@,
            CodeActionsItem::DebugScenario(scenario) => scenario.label@,
        }
    }

    pub fn label(&self) -> (r: String)
        ensures
            r@ == self.label_text(),
    {
        match self {
            CodeActionsItem::Task(task) => task.resolved_label.as_str().to_owned(),
            CodeActionsItem::CodeAction(action) => action.title.as_str().to_owned(),
            CodeActionsItem::DebugScenario(scenario) => scenario.label.as_str().to_owned(),
        }
    }

    /// What the menu shows of the item: a debug scenario is marked as one, and
    /// the others stand on one line.
    pub open spec fn row_text(self) -> Seq<char> {
        match self {
            CodeActionsItem::DebugScenario(scenario) => "debug: "@ + scenario.label@,
            _ => without_newlines(self.label_text()),
        }
    }

    fn row(&self) -> (r: String)
        ensures
            r@ == self.row_text(),
    {
        match self {
            CodeActionsItem::Task(task) => remove_newlines(task.resolved_label.as_str()),
            CodeActionsItem::CodeAction(action) => remove_newlines(action.title.as_str()),
            CodeActionsItem::DebugScenario(scenario) => {
                let mut text = "debug: ".to_owned();
                text.append(scenario.label.as_str());
                text
            },
        }
    }

    /// The number of characters by which the menu's width is chosen.
    pub open spec fn width(self) -> nat {
        match self {
            CodeActionsItem::DebugScenario(scenario) => ("debug: "@ + scenario.label@).len(),
            _ => self.label_text().len(),
        }
    }

    fn char_count(&self) -> (r: usize)
        requires
            self.width() <= usize::MAX,
        ensures
            r == self.width(),
    {
        proof {
            reveal_strlit("debug: ");
        }
        match self {
            CodeActionsItem::Task(task) => task.resolved_label.as_str().unicode_len(),
            CodeActionsItem::CodeAction(action) => action.title.as_str().unicode_len(),
            CodeActionsItem::DebugScenario(scenario) => {
                let prefix: usize = "debug: ".unicode_len();
                prefix + scenario.label.as_str().unicode_len()
            },
        }
    }
}

impl CodeActionContents {
    pub open spec fn task_items(&self) -> Seq<ResolvedTask> {
        match self.tasks {
            Some(tasks) => tasks@,
            None => Seq::empty(),
        }
    }

    pub open spec fn action_items(&self) -> Seq<AvailableCodeAction> {
        match self.actions {
            Some(actions) => actions@,
            None => Seq::empty(),
        }
    }

    /// The number of items of all kinds.
    pub open spec fn count(&self) -> int {
        (self.task_items().len() + self.action_items().len() + self.debug_scenarios@.len()) as int
    }

    /// The item at a place: the tasks come first, then the actions, then the
    /// debug scenarios.
    pub open spec fn item(&self, i: int) -> CodeActionsItem<'_>
        recommends
            0 <= i < self.count(),
    {
        let tasks = self.task_items().len();
        let actions = self.action_items().len();
        if i < tasks {
            CodeActionsItem::Task(&self.task_items()[i])
        } else if i < tasks + actions {
            CodeActionsItem::CodeAction(&self.action_items()[i - tasks])
        } else {
            CodeActionsItem::DebugScenario(&self.debug_scenarios@[i - tasks - actions])
        }
    }

    pub fn new(
        tasks: Option<Vec<ResolvedTask>>,
        actions: Option<Vec<AvailableCodeAction>>,
        debug_scenarios: Vec<DebugScenario>,
    ) -> (r: Self)
        ensures
            r.tasks == tasks,
            r.actions == actions,
            r.debug_scenarios == debug_scenarios,
    {
        CodeActionContents { tasks, actions, debug_scenarios }
    }

    pub fn tasks(&self) -> (r: Option<&Vec<ResolvedTask>>)
        ensures
            r == match self.tasks {
                Some(tasks) => Some(&tasks),
                None => None,
            },
    {
        match &self.tasks {
            Some(tasks) => Some(tasks),
            None => None,
        }
    }

    pub fn len(&self) -> (r: usize)
        requires
            self.count() <= usize::MAX,
        ensures
            r == self.count(),
    {
        let tasks_len: usize = match &self.tasks {
            Some(tasks) => tasks.len(),
            None => 0,
        };
        let code_actions_len: usize = match &self.actions {
            Some(actions) => actions.len(),
            None => 0,
        };
        tasks_len + code_actions_len + self.debug_scenarios.len()
    }

    pub fn is_empty(&self) -> (r: bool)
        requires
            self.count() <= usize::MAX,
        ensures
            r == (self.count() == 0),
    {
        self.len() == 0
    }

    pub fn get(&self, index: usize) -> (r: Option<CodeActionsItem<'_>>)
        ensures
            r == if index < self.count() {
                Some(self.item(index as int))
            } else {
                None
            },
    {
        let mut index: usize = index;
        if let Some(tasks) = &self.tasks {
            if index < tasks.len() {
                return Some(CodeActionsItem::Task(&tasks[index]));
            }
            index = index - tasks.len();
        }
        if let Some(actions) = &self.actions {
            if index < actions.len() {
                return Some(CodeActionsItem::CodeAction(&actions[index]));
            }
            index = index - actions.len();
        }
        if index < self.debug_scenarios.len() {
            Some(CodeActionsItem::DebugScenario(&self.debug_scenarios[index]))
        } else {
            None
        }
    }
}

/// Whether an item is the last of the widest ones.
pub open spec fn is_widest(contents: &CodeActionContents, ix: int) -> bool {
    &&& 0 <= ix < contents.count()
    &&& forall|i: int|
        0 <= i < ix ==> (#[trigger] contents.item(i)).width() <= contents.item(ix).width()
    &&& forall|i: int|
        ix < i < contents.count() ==> (#[trigger] contents.item(i)).width() < contents.item(
            ix,
        ).width()
}

impl CodeActionsMenu {
    /// Moves the selection, and says whether it changed: then the selected item
    /// is scrolled to.
    pub fn change_selection(&mut self, change: MenuSelectionChange) -> (changed: bool)
        requires
            old(self).selected_item < usize::MAX,
            old(self).actions.count() <= usize::MAX,
        ensures
            final(self).selected_item == change.oriented(old(self).y_flipped).selection(
                old(self).selected_item as int,
                old(self).actions.count(),
            ),
            final(self).actions == old(self).actions,
            final(self).y_flipped == old(self).y_flipped,
            final(self).deployed_from == old(self).deployed_from,
            changed == (final(self).selected_item != old(self).selected_item),
    {
        let length: usize = self.actions.len();
        let mut selected_item: usize = self.selected_item;
        let changed = change.apply(&mut selected_item, length, self.y_flipped);
        self.selected_item = selected_item;
        changed
    }

    pub fn visible(&self) -> (r: bool)
        requires
            self.actions.count() <= usize::MAX,
        ensures
            r == (self.actions.count() > 0),
    {
        !self.actions.is_empty()
    }

    pub open spec fn origin_spec(&self) -> ContextMenuOrigin {
        match self.deployed_from {
            Some(CodeActionSource::Indicator(row)) => ContextMenuOrigin::GutterIndicator(row),
            Some(CodeActionSource::QuickActionBar) => ContextMenuOrigin::QuickActionBar,
            None => ContextMenuOrigin::Cursor,
        }
    }

    pub fn origin(&self) -> (r: ContextMenuOrigin)
        ensures
            r == self.origin_spec(),
    {
        match self.deployed_from {
            Some(CodeActionSource::Indicator(row)) => ContextMenuOrigin::GutterIndicator(row),
            Some(CodeActionSource::QuickActionBar) => ContextMenuOrigin::QuickActionBar,
            None => ContextMenuOrigin::Cursor,
        }
    }

    /// The number of lines that a range of the list has: the part of it in the
    /// list.
    pub open spec fn row_count(&self, range: Range<usize>) -> int {
        if self.actions.count() <= range.start {
            0
        } else if self.actions.count() < range.end {
            self.actions.count() - range.start
        } else {
            range.end - range.start
        }
    }

    /// The lines of a range of the list.
    pub fn render(&self, range: Range<usize>) -> (rows: Vec<CodeActionRow>)
        requires
            range.start <= range.end,
        ensures
            rows@.len() == self.row_count(range),
            forall|k: int|
                0 <= k < rows@.len() ==> {
                    &&& (#[trigger] rows@[k]).item_ix == range.start + k
                    &&& rows@[k].selected == (range.start + k == self.selected_item)
                    &&& rows@[k].text@ == self.actions.item(range.start + k).row_text()
                },
    {
        let mut rows: Vec<CodeActionRow> = Vec::new();
        let mut item_ix: usize = range.start;
        while item_ix < range.end
            invariant
                range.start <= item_ix <= range.end,
                rows@.len() == item_ix - range.start,
                range.start < item_ix ==> item_ix <= self.actions.count(),
                forall|k: int|
                    0 <= k < rows@.len() ==> {
                        &&& (#[trigger] rows@[k]).item_ix == range.start + k
                        &&& rows@[k].selected == (range.start + k == self.selected_item)
                        &&& rows@[k].text@ == self.actions.item(range.start + k).row_text()
                    },
            decreases range.end - item_ix,
        {
            match self.actions.get(item_ix) {
                Some(item) => {
                    let selected = item_ix == self.selected_item;
                    rows.push(CodeActionRow { item_ix, selected, text: item.row() });
                },
                None => {
                    return rows;
                },
            }
            item_ix = item_ix + 1;
        }
        rows
    }

    /// The item that the menu is made as wide as: the last of the widest ones.
    pub fn widest_item(&self) -> (r: Option<usize>)
        requires
            self.actions.count() <= usize::MAX,
            forall|i: int|
                0 <= i < self.actions.count() ==> (#[trigger] self.actions.item(i)).width()
                    <= usize::MAX,
        ensures
            r is None <==> self.actions.count() == 0,
            r matches Some(ix) ==> is_widest(&self.actions, ix as int),
    {
        let len: usize = self.actions.len();
        let mut widest: Option<usize> = None;
        let mut width: usize = 0;
        let mut i: usize = 0;
        while i < len
            invariant
                i <= len == self.actions.count(),
                forall|k: int|
                    0 <= k < self.actions.count() ==> (#[trigger] self.actions.item(k)).width()
                        <= usize::MAX,
                widest is None <==> i == 0,
                widest is None ==> width == 0,
                widest matches Some(ix) ==> {
                    &&& ix < i
                    &&& width == self.actions.item(ix as int).width()
                    &&& forall|k: int|
                        0 <= k < ix ==> (#[trigger] self.actions.item(k)).width() <= width
                    &&& forall|k: int| ix < k < i ==> (#[trigger] self.actions.item(k)).width() < width
                },
            decreases len - i,
        {
            if let Some(item) = self.actions.get(i) {
                let count: usize = item.char_count();
                if count >= width {
                    widest = Some(i);
                    width = count;
                }
            }
            i = i + 1;
        }
        widest
    }
}

/// A text loses its newlines and nothing else.
pub proof fn law_only_newlines_leave(text: Seq<char>)
    ensures
        without_newlines(text) == text.filter(|c: char| c != '\n'),
    decreases text.len(),
{
    reveal(Seq::filter);
    if text.len() > 0 {
        law_only_newlines_leave(text.drop_last());
    }
}

proof fn lemma_without_newlines_len(text: Seq<char>)
    ensures
        without_newlines(text).len() <= text.len(),
    decreases text.len(),
{
    if text.len() > 0 {
        lemma_without_newlines_len(text.drop_last());
    }
}

/// Every task, action and debug scenario is listed, each kind in its order: the tasks
/// first, the debug scenarios last.
pub proof fn law_every_item_is_listed(contents: &CodeActionContents, k: int)
    requires
        0 <= k,
    ensures
        contents.count() == contents.task_items().len() + contents.action_items().len()
            + contents.debug_scenarios@.len(),
        k < contents.task_items().len() ==> contents.item(k) == CodeActionsItem::Task(
            &contents.task_items()[k],
        ),
        k < contents.action_items().len() ==> contents.item(
            contents.task_items().len() + k,
        ) == CodeActionsItem::CodeAction(&contents.action_items()[k]),
        k < contents.debug_scenarios@.len() ==> contents.item(
            contents.task_items().len() + contents.action_items().len() + k,
        ) == CodeActionsItem::DebugScenario(&contents.debug_scenarios@[k]),
        contents.tasks matches Some(tasks) ==> contents.task_items() == tasks@,
        contents.actions matches Some(actions) ==> contents.action_items() == actions@,
        contents.tasks is None ==> contents.task_items().len() == 0,
        contents.actions is None ==> contents.action_items().len() == 0,
{
}

/// No row is wider than the widest item, which the menu is made as wide as.
pub proof fn law_rows_fit(contents: &CodeActionContents, widest: int, i: int)
    requires
        is_widest(contents, widest),
        0 <= i < contents.count(),
    ensures
        contents.item(i).row_text().len() <= contents.item(widest).width(),
        contents.item(i).width() <= contents.item(widest).width(),
        contents.item(i).width() == contents.item(widest).width() ==> i <= widest,
{
    lemma_without_newlines_len(contents.item(i).label_text());
    assert(contents.item(i).row_text().len() <= contents.item(i).width());
}

/// A row shows the label of its item on one line, and marks a debug scenario.
pub proof fn law_rows_show_labels(item: CodeActionsItem<'_>)
    ensures
        item matches CodeActionsItem::DebugScenario(scenario) ==> item.row_text() == "debug: "@
            + scenario.label@,
        item matches CodeActionsItem::Task(task) ==> item.row_text()
            == task.resolved_label@.filter(|c: char| c != '\n'),
        item matches CodeActionsItem::CodeAction(action) ==> item.row_text()
            == action.title@.filter(|c: char| c != '\n'),
{
    law_only_newlines_leave(item.label_text());
}

/// The rows of a range are those of its items that are in the list.
pub proof fn law_rows_cover_range(menu: CodeActionsMenu, range: Range<usize>, i: int)
    requires
        range.start <= range.end,
    ensures
        range.start <= i < range.end && i < menu.actions.count() <==> range.start <= i
            < range.start + menu.row_count(range),
{
}

/// A menu appears where it was asked for: at the indicator in the gutter, at the bar,
/// or else at the cursor.
pub proof fn law_origin(menu: CodeActionsMenu)
    ensures
        menu.origin_spec() is Cursor <==> menu.deployed_from is None,
        menu.origin_spec() is QuickActionBar <==> menu.deployed_from == Some(
            CodeActionSource::QuickActionBar,
        ),
        menu.deployed_from matches Some(CodeActionSource::Indicator(row)) ==> menu.origin_spec()
            == ContextMenuOrigin::GutterIndicator(row),
{
}

} // verus!
