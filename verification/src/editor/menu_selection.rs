//! How the selected item of a menu moves.
use vstd::prelude::*;

verus! {

#[derive(Debug, Copy, Clone, PartialEq, Eq, Structural)]
pub enum MenuSelectionChange {
    First,
    Last,
    Prev,
    Next,
}

impl MenuSelectionChange {
    /// The change that goes the other way.
    pub open spec fn flipped(self) -> Self {
        match self {
            MenuSelectionChange::First => MenuSelectionChange::Last,
            MenuSelectionChange::Last => MenuSelectionChange::First,
            MenuSelectionChange::Prev => MenuSelectionChange::Next,
            MenuSelectionChange::Next => MenuSelectionChange::Prev,
        }
    }

    /// The change in a list that is drawn from the top or from the bottom.
    pub open spec fn oriented(self, y_flipped: bool) -> Self {
        if y_flipped {
            self.flipped()
        } else {
            self
        }
    }

    /// The item selected after `index` in a list of `length` items. It goes round
    /// at both ends.
    pub open spec fn selection(self, index: int, length: int) -> int {
        let last = if length > 0 {
            length - 1
        } else {
            0
        };
        match self {
            MenuSelectionChange::First => 0,
            MenuSelectionChange::Last => last,
            MenuSelectionChange::Prev => if index == 0 {
                last
            } else {
                index - 1
            },
            MenuSelectionChange::Next => if index + 1 >= length {
                0
            } else {
                index + 1
            },
        }
    }

    pub fn flip(self) -> (r: MenuSelectionChange)
        ensures
            r == self.flipped(),
    {
        match self {
            MenuSelectionChange::First => MenuSelectionChange::Last,
            MenuSelectionChange::Last => MenuSelectionChange::First,
            MenuSelectionChange::Prev => MenuSelectionChange::Next,
            MenuSelectionChange::Next => MenuSelectionChange::Prev,
        }
    }

    pub fn new_selection(self, index: usize, length: usize) -> (r: usize)
        requires
            index < usize::MAX,
        ensures
            r == self.selection(index as int, length as int),
    {
        let last: usize = if length > 0 {
            length - 1
        } else {
            0
        };
        match self {
            MenuSelectionChange::First => 0,
            MenuSelectionChange::Last => last,
            MenuSelectionChange::Prev => if index == 0 {
                last
            } else {
                index - 1
            },
            MenuSelectionChange::Next => if index + 1 >= length {
                0
            } else {
                index + 1
            },
        }
    }

    /// Moves a selection in a list, and says whether it changed.
    pub fn apply(self, selected_item: &mut usize, length: usize, y_flipped: bool) -> (changed: bool)
        requires
            *old(selected_item) < usize::MAX,
        ensures
            *final(selected_item) == self.oriented(y_flipped).selection(
                *old(selected_item) as int,
                length as int,
            ),
            changed == (*final(selected_item) != *old(selected_item)),
    {
        let change = if y_flipped {
            self.flip()
        } else {
            self
        };
        let new_selection: usize = change.new_selection(*selected_item, length);
        if new_selection != *selected_item {
            *selected_item = new_selection;
            true
        } else {
            false
        }
    }
}

/// A selected item is one of the list's items after any change.
pub proof fn law_selection_in_list(change: MenuSelectionChange, index: int, length: int)
    requires
        0 <= index < length,
    ensures
        0 <= change.selection(index, length) < length,
{
}

/// The next and the previous item undo each other, also at the ends.
pub proof fn law_next_and_prev_are_inverse(index: int, length: int)
    requires
        0 <= index < length,
    ensures
        MenuSelectionChange::Next.selection(
            MenuSelectionChange::Prev.selection(index, length),
            length,
        ) == index,
        MenuSelectionChange::Prev.selection(
            MenuSelectionChange::Next.selection(index, length),
            length,
        ) == index,
{
}

/// A change that is flipped twice is the change itself.
pub proof fn law_flip_twice(change: MenuSelectionChange)
    ensures
        change.flipped().flipped() == change,
{
}

/// The ends of a list are its first and its last item, and the next item is the one
/// behind, but for the last one, behind which the first follows.
pub proof fn law_steps_and_ends(index: int, length: int)
    requires
        0 <= index < length,
    ensures
        MenuSelectionChange::First.selection(index, length) == 0,
        MenuSelectionChange::Last.selection(index, length) == length - 1,
        index < length - 1 ==> MenuSelectionChange::Next.selection(index, length) == index + 1,
        MenuSelectionChange::Next.selection(length - 1, length) == 0,
{
}

/// In a list that is drawn from the bottom a change does what it does in one that is
/// drawn from the top, seen in a mirror.
pub proof fn law_flipped_list_is_mirrored(
    change: MenuSelectionChange,
    index: int,
    length: int,
)
    requires
        0 <= index < length,
    ensures
        change.oriented(true).selection(length - 1 - index, length) == length - 1
            - change.oriented(false).selection(index, length),
        change.oriented(false) == change,
{
}

} // verus!
