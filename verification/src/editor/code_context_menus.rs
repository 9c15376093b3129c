//! The menu at the cursor, of completions or of code actions.
use crate::editor::code_actions_menu::{CodeActionsMenu, ContextMenuOrigin};
use crate::editor::completion_menu::{Aside, CompletionMenu, CompletionMenuContents};
use crate::editor::menu_selection::MenuSelectionChange;
use vstd::prelude::*;

verus! {

#[derive(Debug)]
pub enum CodeContextMenu {
    Completions(CompletionMenu),
    CodeActions(CodeActionsMenu),
}

impl CodeContextMenu {
    /// Whether the menu has anything to show.
    pub open spec fn is_visible(&self) -> bool {
        match self {
            CodeContextMenu::Completions(menu) => menu.is_visible(),
            CodeContextMenu::CodeActions(menu) => menu.actions.count() > 0,
        }
    }

    /// The number of items that can be selected.
    pub open spec fn item_count(&self) -> int {
        match self {
            CodeContextMenu::Completions(menu) => match menu.contents {
                Some(contents) => contents.entries@.len() as int,
                None => 0,
            },
            CodeContextMenu::CodeActions(menu) => menu.actions.count(),
        }
    }

    /// The selected item.
    pub open spec fn selected(&self) -> int {
        match self {
            CodeContextMenu::Completions(menu) => match menu.contents {
                Some(contents) => contents.selected_item as int,
                None => 0,
            },
            CodeContextMenu::CodeActions(menu) => menu.selected_item as int,
        }
    }

    /// Whether the list is drawn from the bottom, `y_flipped` being so for
    /// completions.
    pub open spec fn is_flipped(&self, y_flipped: bool) -> bool {
        match self {
            CodeContextMenu::Completions(_) => y_flipped,
            CodeContextMenu::CodeActions(menu) => menu.y_flipped,
        }
    }

    /// The menu with another item selected.
    pub open spec fn select(&self, item: int) -> Self {
        match *self {
            CodeContextMenu::Completions(menu) => CodeContextMenu::Completions(
                CompletionMenu {
                    contents: match menu.contents {
                        Some(contents) => Some(
                            CompletionMenuContents { selected_item: item as usize, ..contents },
                        ),
                        None => None,
                    },
                    ..menu
                },
            ),
            CodeContextMenu::CodeActions(menu) => CodeContextMenu::CodeActions(
                CodeActionsMenu { selected_item: item as usize, ..menu },
            ),
        }
    }

    /// Moves the selection of a menu that is shown, and says whether it is.
    pub fn change_selection(&mut self, change: MenuSelectionChange, y_flipped: bool) -> (handled:
        bool)
        requires
            old(self).item_count() <= usize::MAX,
            old(self).selected() < usize::MAX,
        ensures
            handled == old(self).is_visible(),
            !handled ==> *final(self) == *old(self),
            handled ==> *final(self) == old(self).select(
                change.oriented(old(self).is_flipped(y_flipped)).selection(
                    old(self).selected(),
                    old(self).item_count(),
                ),
            ),
    {
        if self.visible() {
            match self {
                CodeContextMenu::Completions(menu) => {
                    menu.change_selection(change, y_flipped);
                },
                CodeContextMenu::CodeActions(menu) => {
                    menu.change_selection(change);
                },
            }
            true
        } else {
            false
        }
    }

    pub fn visible(&self) -> (r: bool)
        requires
            self.item_count() <= usize::MAX,
        ensures
            r == self.is_visible(),
    {
        match self {
            CodeContextMenu::Completions(menu) => menu.visible(),
            CodeContextMenu::CodeActions(menu) => menu.visible(),
        }
    }

    pub fn origin(&self) -> (r: ContextMenuOrigin)
        ensures
            r == match self {
                CodeContextMenu::Completions(_) => ContextMenuOrigin::Cursor,
                CodeContextMenu::CodeActions(menu) => menu.origin_spec(),
            },
    {
        match self {
            CodeContextMenu::Completions(menu) => menu.origin(),
            CodeContextMenu::CodeActions(menu) => menu.origin(),
        }
    }
}

impl CodeContextMenu {
    /// What is shown beside the menu: only completions have that.
    pub fn render_aside(&self, show_completion_documentation: bool, is_parsing: bool) -> (aside:
        Option<Aside>)
        requires
            self matches CodeContextMenu::Completions(menu) ==> menu.can_show_aside(
                show_completion_documentation,
            ),
        ensures
            match self {
                CodeContextMenu::Completions(menu) => match menu.contents {
                    Some(contents) => contents.shows_aside(
                        aside,
                        show_completion_documentation,
                        is_parsing,
                    ),
                    None => aside is None,
                },
                CodeContextMenu::CodeActions(_) => aside is None,
            },
    {
        match self {
            CodeContextMenu::Completions(menu) => menu.render_aside(
                show_completion_documentation,
                is_parsing,
            ),
            CodeContextMenu::CodeActions(_) => None,
        }
    }

    /// Whether the menu has the focus: it never takes it.
    pub fn focused(&self) -> (r: bool)
        ensures
            !r,
    {
        false
    }
}

/// A menu is shown exactly if there is an item to select.
pub proof fn law_visible_iff_items(menu: CodeContextMenu)
    ensures
        menu.is_visible() <==> menu.item_count() > 0,
{
}

/// Selecting an item of a menu that is shown changes nothing but the selection.
pub proof fn law_selecting_changes_the_selection(menu: CodeContextMenu, item: int)
    requires
        menu.is_visible(),
        0 <= item < menu.item_count() <= usize::MAX,
    ensures
        menu.select(item).selected() == item,
        menu.select(item).item_count() == menu.item_count(),
        menu.select(item).select(menu.selected()) == menu,
        menu.select(item).is_visible(),
{
}

} // verus!
