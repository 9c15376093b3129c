//! The page table: what to show.
//!
//! **Two keyings, deliberately.** The table is keyed by **index** (a display
//! position); images are keyed by **content id**. A pagebreak shift rewrites the
//! table and touches no image; a zoom touches neither, and only changes whether
//! a cached image is still at the current scale.
use crate::typst_viewer::protocol::{ContentId, TableEntryDelta};
use crate::typst_viewer::scale::{numbers_equal, same_number};
use smallvec::SmallVec;
use vstd::prelude::*;

verus! {

/// A page's size in **points**, not pixels, by the bits of the numbers.
#[derive(Clone, Copy, Debug, PartialEq, Eq, Structural)]
pub struct PageSize {
    pub width: u32,
    pub height: u32,
}

/// One page's geometry and identity.
#[derive(Clone, Copy, Debug, PartialEq, Eq, Structural)]
pub struct PageTableEntry {
    /// Intrinsic size in points.
    ///
    /// Keeping it scale-independent is what lets a zoom leave the scroll region
    /// and every placeholder untouched.
    pub size: PageSize,
    /// `None` before the server has told us what is at this index.
    pub content: Option<ContentId>,
}

/// The bits of 595, the width of an A4 page in points.
pub const A4_WIDTH: u32 = 0x4414_c000;

/// The bits of 842, the height of an A4 page in points.
pub const A4_HEIGHT: u32 = 0x4452_8000;

/// An entry that nothing is known about: an A4 page, so that it still lays out
/// plausibly rather than collapsing to zero height.
pub open spec fn unknown_entry() -> PageTableEntry {
    PageTableEntry { size: PageSize { width: A4_WIDTH, height: A4_HEIGHT }, content: None }
}

impl Default for PageTableEntry {
    fn default() -> (entry: Self)
        ensures
            entry == unknown_entry(),
    {
        PageTableEntry { size: PageSize { width: A4_WIDTH, height: A4_HEIGHT }, content: None }
    }
}

/// A list of indices, held in place while it is short.
#[verifier::external_body]
pub struct IndexList {
    list: SmallVec<[usize; 8]>,
}

/// The indices in a list.
pub uninterp spec fn listed(list: IndexList) -> Seq<usize>;

/// `SmallVec::new`: an empty list.
#[verifier::external_body]
pub(crate) fn new_list() -> (r: IndexList)
    ensures
        listed(r) == Seq::<usize>::empty(),
{
    IndexList { list: SmallVec::new() }
}

/// `SmallVec::push`: appends an index.
#[verifier::external_body]
pub(crate) fn push_index(list: &mut IndexList, index: usize)
    ensures
        listed(*final(list)) == listed(*old(list)).push(index),
{
    list.list.push(index);
}

/// `SmallVec::as_slice`: the indices of a list.
#[verifier::external_body]
fn list_slice(list: &IndexList) -> (r: &[usize])
    ensures
        r@ == listed(*list),
{
    list.list.as_slice()
}

impl IndexList {
    /// The indices.
    pub fn as_slice(&self) -> (r: &[usize])
        ensures
            r@ == listed(*self),
    {
        list_slice(self)
    }
}

/// What the view needs to know after a table update, computed once here so the
/// view never re-derives a diff.
pub struct TableDelta {
    pub total: usize,
    /// The page count moved, so list slots must be spliced.
    pub total_changed: bool,
    /// These indices changed point-size, so they must be re-measured.
    pub geometry_changed: IndexList,
    /// Some index now maps to different content, so the view may need to
    /// re-anchor on the content it was looking at.
    pub content_moved: bool,
}

/// Index -> geometry + content id, applied incrementally.
pub struct PageTable {
    pub entries: Vec<PageTableEntry>,
    /// Per index, the content id we last had an image for.
    ///
    /// Deliberately *not* cleared when an index's content changes: it is what
    /// the index keeps showing while the replacement image is in flight. See
    /// [`lookup_for_index`].
    pub displayed: Vec<Option<ContentId>>,
}

/// A sequence cut or filled up to a length.
pub open spec fn resized<T>(items: Seq<T>, len: nat, filler: T) -> Seq<T> {
    Seq::new(
        len,
        |i: int|
            if i < items.len() {
                items[i]
            } else {
                filler
            },
    )
}

/// Whether a delta gives an entry another size.
pub open spec fn changes_size(entry: PageTableEntry, delta: TableEntryDelta) -> bool {
    match (delta.width, delta.height) {
        (Some(width), Some(height)) => !(same_number(entry.size.width, width) && same_number(
            entry.size.height,
            height,
        )),
        _ => false,
    }
}

/// Whether a delta gives an entry other content.
pub open spec fn changes_content(entry: PageTableEntry, delta: TableEntryDelta) -> bool {
    delta.content is Some && entry.content != delta.content
}

/// An entry after a delta: only what the delta carries is overwritten.
pub open spec fn updated(entry: PageTableEntry, delta: TableEntryDelta) -> PageTableEntry {
    PageTableEntry {
        size: if changes_size(entry, delta) {
            PageSize { width: delta.width->0, height: delta.height->0 }
        } else {
            entry.size
        },
        content: if delta.content is Some {
            delta.content
        } else {
            entry.content
        },
    }
}

/// Entries after several deltas. Those beyond the end are ignored: racing a
/// shrink is normal.
pub open spec fn applied(entries: Seq<PageTableEntry>, deltas: Seq<TableEntryDelta>) -> Seq<
    PageTableEntry,
>
    decreases deltas.len(),
{
    if deltas.len() == 0 {
        entries
    } else {
        let before = applied(entries, deltas.drop_last());
        let delta = deltas.last();
        if delta.index < before.len() {
            before.update(delta.index as int, updated(before[delta.index as int], delta))
        } else {
            before
        }
    }
}

/// The indices whose size several deltas change, in their order.
pub open spec fn resized_indices(entries: Seq<PageTableEntry>, deltas: Seq<TableEntryDelta>) -> Seq<
    usize,
>
    decreases deltas.len(),
{
    if deltas.len() == 0 {
        Seq::empty()
    } else {
        let before = applied(entries, deltas.drop_last());
        let delta = deltas.last();
        let sofar = resized_indices(entries, deltas.drop_last());
        if delta.index < before.len() && changes_size(before[delta.index as int], delta) {
            sofar.push(delta.index)
        } else {
            sofar
        }
    }
}

/// Whether several deltas change some content.
pub open spec fn moves_content(entries: Seq<PageTableEntry>, deltas: Seq<TableEntryDelta>) -> bool
    decreases deltas.len(),
{
    deltas.len() > 0 && {
        let before = applied(entries, deltas.drop_last());
        let delta = deltas.last();
        ||| moves_content(entries, deltas.drop_last())
        ||| delta.index < before.len() && changes_content(before[delta.index as int], delta)
    }
}

/// The entries that a message is applied to: those of the table, or none where
/// the message replaces it, cut or filled up to the new page count.
pub open spec fn base_entries(entries: Seq<PageTableEntry>, total: nat, full: bool) -> Seq<
    PageTableEntry,
> {
    resized(
        if full {
            Seq::empty()
        } else {
            entries
        },
        total,
        unknown_entry(),
    )
}

/// The entry that a table has at an index, the unknown one beyond its end.
pub open spec fn entry_at(entries: Seq<PageTableEntry>, i: int) -> PageTableEntry {
    if 0 <= i < entries.len() {
        entries[i]
    } else {
        unknown_entry()
    }
}

/// The first `n` indices at which two tables have different sizes.
pub open spec fn differing_sizes(
    before: Seq<PageTableEntry>,
    after: Seq<PageTableEntry>,
    n: nat,
) -> Seq<usize>
    decreases n,
{
    if n == 0 {
        Seq::empty()
    } else {
        let sofar = differing_sizes(before, after, (n - 1) as nat);
        let old_size = entry_at(before, n - 1).size;
        let new_size = after[n - 1].size;
        if same_number(old_size.width, new_size.width) && same_number(
            old_size.height,
            new_size.height,
        ) {
            sofar
        } else {
            sofar.push((n - 1) as usize)
        }
    }
}

/// Whether an index of a table has other content than in an earlier one.
pub open spec fn differs_in_content(
    before: Seq<PageTableEntry>,
    after: Seq<PageTableEntry>,
) -> bool {
    exists|i: int|
        0 <= i < after.len() && (#[trigger] after[i]).content != entry_at(before, i).content
}

/// The indices whose size a message changes. One that replaces the table changes
/// those at which the new table differs from the old.
pub open spec fn geometry_changes(
    entries: Seq<PageTableEntry>,
    total: nat,
    full: bool,
    deltas: Seq<TableEntryDelta>,
) -> Seq<usize> {
    let base = base_entries(entries, total, full);
    if full {
        differing_sizes(entries, applied(base, deltas), total)
    } else {
        resized_indices(base, deltas)
    }
}

/// Whether a message gives an index other content.
pub open spec fn content_changes(
    entries: Seq<PageTableEntry>,
    total: nat,
    full: bool,
    deltas: Seq<TableEntryDelta>,
) -> bool {
    let base = base_entries(entries, total, full);
    if full {
        differs_in_content(entries, applied(base, deltas))
    } else {
        moves_content(base, deltas)
    }
}

/// Compares a table with an earlier one: where the sizes differ, and whether some
/// content does.
fn compare_tables(before: &Vec<PageTableEntry>, after: &Vec<PageTableEntry>) -> (r: (
    IndexList,
    bool,
))
    ensures
        listed(r.0) == differing_sizes(before@, after@, after@.len()),
        r.1 == differs_in_content(before@, after@),
{
    let mut geometry_changed = new_list();
    let mut content_moved = false;
    let mut i: usize = 0;
    while i < after.len()
        invariant
            i <= after@.len(),
            listed(geometry_changed) == differing_sizes(before@, after@, i as nat),
            content_moved ==> differs_in_content(before@, after@),
            !content_moved ==> forall|j: int|
                0 <= j < i ==> (#[trigger] after@[j]).content == entry_at(before@, j).content,
        decreases after@.len() - i,
    {
        let old_entry = if i < before.len() {
            before[i]
        } else {
            PageTableEntry::default()
        };
        let new_entry = after[i];
        if !(numbers_equal(old_entry.size.width, new_entry.size.width) && numbers_equal(
            old_entry.size.height,
            new_entry.size.height,
        )) {
            push_index(&mut geometry_changed, i);
        }
        let same = match (old_entry.content, new_entry.content) {
            (Some(old_id), Some(new_id)) => old_id.0 == new_id.0,
            (None, None) => true,
            _ => false,
        };
        assert(new_entry == after@[i as int]);
        assert(same == (after@[i as int].content == entry_at(before@, i as int).content));
        if !same {
            content_moved = true;
        }
        i = i + 1;
    }
    (geometry_changed, content_moved)
}

proof fn lemma_applied_len(entries: Seq<PageTableEntry>, deltas: Seq<TableEntryDelta>)
    ensures
        applied(entries, deltas).len() == entries.len(),
    decreases deltas.len(),
{
    if deltas.len() > 0 {
        lemma_applied_len(entries, deltas.drop_last());
    }
}

impl Default for PageTable {
    fn default() -> (r: Self)
        ensures
            r.entries@.len() == 0,
            r.displayed@.len() == 0,
            r.inv(),
    {
        PageTable { entries: Vec::new(), displayed: Vec::new() }
    }
}

impl PageTable {
    /// Every entry has a place for what is displayed at it.
    pub open spec fn inv(&self) -> bool {
        self.entries@.len() == self.displayed@.len()
    }

    /// The content that the table has at an index.
    pub open spec fn content(&self, index: int) -> Option<ContentId> {
        if 0 <= index < self.entries@.len() {
            self.entries@[index].content
        } else {
            None
        }
    }

    /// The content last drawn at an index.
    pub open spec fn shown(&self, index: int) -> Option<ContentId> {
        if 0 <= index < self.displayed@.len() {
            self.displayed@[index]
        } else {
            None
        }
    }

    pub fn len(&self) -> (n: usize)
        ensures
            n == self.entries@.len(),
    {
        self.entries.len()
    }

    pub fn get(&self, index: usize) -> (r: Option<&PageTableEntry>)
        ensures
            r == if index < self.entries@.len() {
                Some(&self.entries@[index as int])
            } else {
                None
            },
    {
        if index < self.entries.len() {
            Some(&self.entries[index])
        } else {
            None
        }
    }

    pub fn content_at(&self, index: usize) -> (r: Option<ContentId>)
        ensures
            r == self.content(index as int),
    {
        if index < self.entries.len() {
            self.entries[index].content
        } else {
            None
        }
    }

    /// Applies one `pages` message.
    ///
    /// `full` replaces rather than merges. Merging from empty would also work,
    /// but honoring the flag makes a reconnect with stale state safe by
    /// construction.
    pub fn apply(&mut self, total: usize, full: bool, entries: &[TableEntryDelta]) -> (delta:
        TableDelta)
        ensures
            final(self).inv(),
            final(self).entries@ == applied(
                base_entries(old(self).entries@, total as nat, full),
                entries@,
            ),
            final(self).displayed@ == resized(
                if full {
                    Seq::empty()
                } else {
                    old(self).displayed@
                },
                total as nat,
                None,
            ),
            delta.total == total,
            delta.total_changed == (total != old(self).entries@.len()),
            listed(delta.geometry_changed) == geometry_changes(
                old(self).entries@,
                total as nat,
                full,
                entries@,
            ),
            delta.content_moved == content_changes(
                old(self).entries@,
                total as nat,
                full,
                entries@,
            ),
    {
        let ghost base = base_entries(self.entries@, total as nat, full);
        let ghost shown = if full {
            Seq::empty()
        } else {
            self.displayed@
        };
        let total_changed = self.entries.len() != total;
        let mut previous: Vec<PageTableEntry> = Vec::new();
        if full {
            std::mem::swap(&mut self.entries, &mut previous);
            self.displayed.clear();
        }
        self.entries.resize(total, PageTableEntry::default());
        self.displayed.resize(total, None);
        assert(self.entries@ =~= base);
        assert(self.displayed@ =~= resized(shown, total as nat, None));
        let mut geometry_changed = new_list();
        let mut content_moved = false;
        let mut k: usize = 0;
        assert(entries@.take(0) =~= Seq::<TableEntryDelta>::empty());
        while k < entries.len()
            invariant
                k <= entries@.len(),
                base.len() == total,
                full ==> previous@ == old(self).entries@,
                self.displayed@ == resized(shown, total as nat, None),
                self.entries@ == applied(base, entries@.take(k as int)),
                listed(geometry_changed) == resized_indices(base, entries@.take(k as int)),
                content_moved == moves_content(base, entries@.take(k as int)),
            decreases entries@.len() - k,
        {
            let entry = entries[k];
            proof {
                assert(entries@.take(k + 1).drop_last() =~= entries@.take(k as int));
                assert(entries@.take(k + 1).last() == entry);
                lemma_applied_len(base, entries@.take(k as int));
            }
            if entry.index < self.entries.len() {
                let mut slot = self.entries[entry.index];
                let ghost before = slot;
                if let (Some(width), Some(height)) = (entry.width, entry.height) {
                    if !(numbers_equal(slot.size.width, width) && numbers_equal(
                        slot.size.height,
                        height,
                    )) {
                        slot.size = PageSize { width, height };
                        push_index(&mut geometry_changed, entry.index);
                    }
                }
                if let Some(content) = entry.content {
                    let same = match slot.content {
                        Some(previous) => previous.0 == content.0,
                        None => false,
                    };
                    if !same {
                        slot.content = Some(content);
                        content_moved = true;
                    }
                }
                assert(slot == updated(before, entry));
                self.entries.set(entry.index, slot);
            }
            k = k + 1;
        }
        proof {
            assert(entries@.take(k as int) =~= entries@);
            lemma_applied_len(base, entries@);
        }
        if full {
            let (geometry_changed, content_moved) = compare_tables(&previous, &self.entries);
            return TableDelta { total, total_changed, geometry_changed, content_moved };
        }
        TableDelta { total, total_changed, geometry_changed, content_moved }
    }

    /// The content id last drawn at this index, if any.
    pub fn displayed_at(&self, index: usize) -> (r: Option<ContentId>)
        ensures
            r == self.shown(index as int),
    {
        if index < self.displayed.len() {
            self.displayed[index]
        } else {
            None
        }
    }

    /// Records that `index` is now showing `content`.
    pub fn record_displayed(&mut self, index: usize, content: ContentId)
        ensures
            final(self).entries == old(self).entries,
            final(self).displayed@ == if index < old(self).displayed@.len() {
                old(self).displayed@.update(index as int, Some(content))
            } else {
                old(self).displayed@
            },
    {
        if index < self.displayed.len() {
            self.displayed.set(index, Some(content));
        }
    }

    /// The ids that the first `n` indices rely on.
    pub open spec fn used_ids(&self, indices: Seq<usize>, n: nat) -> Seq<ContentId>
        decreases n,
    {
        if n == 0 {
            Seq::empty()
        } else {
            let index = indices[n - 1] as int;
            self.used_ids(indices, (n - 1) as nat) + as_seq(self.content(index)) + as_seq(
                self.shown(index),
            )
        }
    }

    /// Every id an index is currently relying on — the one the table says it
    /// should show, plus the one it is actually showing until that arrives.
    pub fn ids_in_use(&self, indices: &Vec<usize>) -> (ids: Vec<ContentId>)
        ensures
            ids@ == self.used_ids(indices@, indices@.len()),
    {
        let mut ids: Vec<ContentId> = Vec::new();
        let mut n: usize = 0;
        while n < indices.len()
            invariant
                n <= indices@.len(),
                ids@ == self.used_ids(indices@, n as nat),
            decreases indices@.len() - n,
        {
            let ghost before = ids@;
            if let Some(id) = self.content_at(indices[n]) {
                ids.push(id);
            }
            if let Some(id) = self.displayed_at(indices[n]) {
                ids.push(id);
            }
            assert(ids@ =~= self.used_ids(indices@, (n + 1) as nat));
            n = n + 1;
        }
        ids
    }

    /// The index nearest `near` whose content is `content`, the lower one of
    /// two at the same distance.
    ///
    /// An id can appear at several indices (blank pages), so picking the first
    /// match would teleport to the first blank page on every edit.
    pub fn find_content(&self, content: ContentId, near: usize) -> (r: Option<usize>)
        ensures
            match r {
                Some(i) => {
                    &&& self.content(i as int) == Some(content)
                    &&& forall|j: int|
                        #[trigger] self.content(j) == Some(content) ==> distance(i as int, near as int)
                            < distance(j, near as int) || (distance(i as int, near as int)
                            == distance(j, near as int) && i <= j)
                },
                None => forall|j: int| #[trigger] self.content(j) != Some(content),
            },
    {
        let mut best: Option<usize> = None;
        let mut best_distance: usize = 0;
        let mut i: usize = 0;
        while i < self.entries.len()
            invariant
                i <= self.entries@.len(),
                match best {
                    Some(b) => {
                        &&& b < i
                        &&& self.content(b as int) == Some(content)
                        &&& best_distance == distance(b as int, near as int)
                        &&& forall|j: int|
                            0 <= j < i && #[trigger] self.content(j) == Some(content) ==> (
                            best_distance < distance(j, near as int) || (best_distance == distance(
                                j,
                                near as int,
                            ) && b <= j))
                    },
                    None => forall|j: int|
                        0 <= j < i ==> #[trigger] self.content(j) != Some(content),
                },
            decreases self.entries@.len() - i,
        {
            let matches = match self.content_at(i) {
                Some(id) => id.0 == content.0,
                None => false,
            };
            assert(matches == (self.content(i as int) == Some(content)));
            if matches {
                let d: usize = if i < near {
                    near - i
                } else {
                    i - near
                };
                let closer = match best {
                    Some(_) => d < best_distance,
                    None => true,
                };
                if closer {
                    best = Some(i);
                    best_distance = d;
                }
            }
            i = i + 1;
        }
        best
    }
}

/// How far apart two positions are.
pub open spec fn distance(a: int, b: int) -> int {
    if a < b {
        b - a
    } else {
        a - b
    }
}

/// An optional id as a sequence of at most one.
pub open spec fn as_seq(id: Option<ContentId>) -> Seq<ContentId> {
    match id {
        Some(id) => seq![id],
        None => Seq::empty(),
    }
}

/// Messages accumulate: applying two lists of deltas one after the other, the
/// page count staying the same, is applying them as one list. None is dropped.
pub proof fn law_deltas_accumulate(
    entries: Seq<PageTableEntry>,
    first: Seq<TableEntryDelta>,
    second: Seq<TableEntryDelta>,
)
    ensures
        applied(
            base_entries(applied(entries, first), entries.len(), false),
            second,
        ) == applied(entries, first + second),
    decreases second.len(),
{
    lemma_applied_len(entries, first);
    assert(base_entries(applied(entries, first), entries.len(), false) =~= applied(
        entries,
        first,
    ));
    if second.len() == 0 {
        assert(first + second =~= first);
    } else {
        law_deltas_accumulate(entries, first, second.drop_last());
        assert((first + second).drop_last() =~= first + second.drop_last());
        assert((first + second).last() == second.last());
    }
}

/// A message that replaces the table gives the same table whatever was there.
pub proof fn law_full_replaces(a: Seq<PageTableEntry>, b: Seq<PageTableEntry>, total: nat)
    ensures
        base_entries(a, total, true) == base_entries(b, total, true),
{
}

/// A message that replaces a table by the same one reports no change.
pub proof fn law_same_snapshot_changes_nothing(
    entries: Seq<PageTableEntry>,
    deltas: Seq<TableEntryDelta>,
)
    requires
        applied(base_entries(entries, entries.len(), true), deltas) == entries,
        forall|i: int|
            0 <= i < entries.len() ==> {
                let size = (#[trigger] entries[i]).size;
                same_number(size.width, size.width) && same_number(size.height, size.height)
            },
    ensures
        geometry_changes(entries, entries.len(), true, deltas).len() == 0,
        !content_changes(entries, entries.len(), true, deltas),
{
    lemma_no_differing_sizes(entries, entries.len());
}

proof fn lemma_no_differing_sizes(entries: Seq<PageTableEntry>, n: nat)
    requires
        n <= entries.len(),
        forall|i: int|
            0 <= i < entries.len() ==> {
                let size = (#[trigger] entries[i]).size;
                same_number(size.width, size.width) && same_number(size.height, size.height)
            },
    ensures
        differing_sizes(entries, entries, n).len() == 0,
    decreases n,
{
    if n > 0 {
        lemma_no_differing_sizes(entries, (n - 1) as nat);
        assert(entries[n - 1] == entry_at(entries, n - 1));
    }
}

/// A message with fewer pages cuts the table, and with no deltas leaves the
/// remaining pages as they are.
pub proof fn law_shrink_truncates(entries: Seq<PageTableEntry>, total: nat)
    requires
        total <= entries.len(),
    ensures
        applied(base_entries(entries, total, false), Seq::empty()) == entries.take(total as int),
{
    assert(base_entries(entries, total, false) =~= entries.take(total as int));
}

/// Deltas that carry no geometry, as those of a pagebreak shift, leave every
/// size as it is and report none to be measured again.
pub proof fn law_content_deltas_keep_geometry(
    entries: Seq<PageTableEntry>,
    deltas: Seq<TableEntryDelta>,
)
    requires
        forall|k: int|
            0 <= k < deltas.len() ==> (#[trigger] deltas[k]).width is None
                || deltas[k].height is None,
    ensures
        resized_indices(entries, deltas).len() == 0,
        forall|i: int|
            0 <= i < entries.len() ==> (#[trigger] applied(entries, deltas)[i]).size
                == entries[i].size,
    decreases deltas.len(),
{
    if deltas.len() > 0 {
        let shorter = deltas.drop_last();
        assert forall|k: int| 0 <= k < shorter.len() implies (#[trigger] shorter[k]).width is None
            || shorter[k].height is None by {
            assert(shorter[k] == deltas[k]);
        }
        law_content_deltas_keep_geometry(entries, shorter);
        lemma_applied_len(entries, shorter);
        assert(deltas[deltas.len() - 1].width is None || deltas[deltas.len() - 1].height is None);
        let before = applied(entries, shorter);
        assert forall|i: int| 0 <= i < entries.len() implies (
        #[trigger] applied(entries, deltas)[i]).size == entries[i].size by {
            assert(before[i].size == entries[i].size);
        }
    }
}

/// A delta without content leaves the content of its page as it is.
pub proof fn law_absent_content_is_unchanged(entry: PageTableEntry, delta: TableEntryDelta)
    ensures
        delta.content is None ==> updated(entry, delta).content == entry.content,
        delta.content is Some ==> updated(entry, delta).content == delta.content,
{
}

/// A delta changes the entry at its index and no other: it gives it its content and
/// its size, as far as it carries them. Beyond the end of the table it changes nothing.
pub proof fn law_delta_changes_its_entry(
    entries: Seq<PageTableEntry>,
    deltas: Seq<TableEntryDelta>,
    delta: TableEntryDelta,
    i: int,
)
    requires
        0 <= i < entries.len(),
    ensures
        ({
            let before = applied(entries, deltas);
            let after = applied(entries, deltas.push(delta));
            &&& after.len() == entries.len()
            &&& i != delta.index ==> after[i] == before[i]
            &&& i == delta.index ==> {
                &&& after[i].content == if delta.content is Some {
                    delta.content
                } else {
                    before[i].content
                }
                &&& delta.width is None || delta.height is None ==> after[i].size
                    == before[i].size
                &&& delta.width is Some && delta.height is Some ==> {
                    ||| after[i].size.width == delta.width->0 && after[i].size.height
                        == delta.height->0
                    ||| after[i].size == before[i].size && same_number(
                        before[i].size.width,
                        delta.width->0,
                    ) && same_number(before[i].size.height, delta.height->0)
                }
            }
        }),
{
    lemma_applied_len(entries, deltas);
    lemma_applied_len(entries, deltas.push(delta));
    assert(deltas.push(delta).drop_last() =~= deltas);
}

/// A page whose size several deltas change is reported, and every index that is
/// reported is one of the table's and one of the deltas'.
pub proof fn law_every_resize_is_reported(
    entries: Seq<PageTableEntry>,
    deltas: Seq<TableEntryDelta>,
)
    ensures
        forall|i: int|
            0 <= i < entries.len() && (#[trigger] applied(entries, deltas)[i]).size
                != entries[i].size ==> resized_indices(entries, deltas).contains(i as usize),
        forall|k: int|
            0 <= k < resized_indices(entries, deltas).len() ==> #[trigger] resized_indices(
                entries,
                deltas,
            )[k] < entries.len() && deltas.map_values(
                |delta: TableEntryDelta| delta.index,
            ).contains(resized_indices(entries, deltas)[k]),
    decreases deltas.len(),
{
    lemma_applied_len(entries, deltas);
    if deltas.len() > 0 {
        let earlier = deltas.drop_last();
        law_every_resize_is_reported(entries, earlier);
        lemma_applied_len(entries, earlier);
        let sofar = resized_indices(entries, earlier);
        let all = resized_indices(entries, deltas);
        let index = |delta: TableEntryDelta| delta.index;
        assert forall|i: int|
            0 <= i < entries.len() && (#[trigger] applied(entries, deltas)[i]).size
                != entries[i].size implies all.contains(i as usize) by {
            if applied(entries, earlier)[i].size != entries[i].size {
                let k = choose|k: int| 0 <= k < sofar.len() && sofar[k] == i as usize;
                assert(all[k] == i as usize);
            } else {
                assert(deltas.last().index == i);
                assert(all[all.len() - 1] == i as usize);
            }
        }
        assert forall|k: int| 0 <= k < all.len() implies #[trigger] all[k] < entries.len()
            && deltas.map_values(index).contains(all[k]) by {
            if k < sofar.len() {
                assert(all[k] == sofar[k]);
                let listed = earlier.map_values(index);
                let j = choose|j: int| 0 <= j < listed.len() && listed[j] == sofar[k];
                assert(deltas.map_values(index)[j] == sofar[k]);
            } else {
                assert(deltas.map_values(index)[deltas.len() - 1] == all[k]);
            }
        }
    }
}

/// A change of content is reported, and only where a delta carries content.
pub proof fn law_every_move_is_reported(
    entries: Seq<PageTableEntry>,
    deltas: Seq<TableEntryDelta>,
)
    ensures
        forall|i: int|
            0 <= i < entries.len() && (#[trigger] applied(entries, deltas)[i]).content
                != entries[i].content ==> moves_content(entries, deltas),
        moves_content(entries, deltas) ==> exists|k: int|
            0 <= k < deltas.len() && (#[trigger] deltas[k]).content is Some && deltas[k].index
                < entries.len(),
    decreases deltas.len(),
{
    lemma_applied_len(entries, deltas);
    if deltas.len() > 0 {
        let earlier = deltas.drop_last();
        law_every_move_is_reported(entries, earlier);
        lemma_applied_len(entries, earlier);
        if moves_content(entries, earlier) {
            let k = choose|k: int|
                0 <= k < earlier.len() && (#[trigger] earlier[k]).content is Some
                    && earlier[k].index < entries.len();
            assert(deltas[k] == earlier[k]);
        } else if moves_content(entries, deltas) {
            assert(deltas[deltas.len() - 1].content is Some);
        }
        assert forall|i: int|
            0 <= i < entries.len() && (#[trigger] applied(entries, deltas)[i]).content
                != entries[i].content implies moves_content(entries, deltas) by {
            if applied(entries, earlier)[i].content == entries[i].content {
                assert(deltas.last().index == i);
            }
        }
    }
}

/// The indices at which two tables differ in size are those at which they do, each
/// once and in order.
pub proof fn law_differing_sizes(before: Seq<PageTableEntry>, after: Seq<PageTableEntry>, n: nat)
    requires
        n <= after.len(),
        n <= usize::MAX,
    ensures
        ({
            let found = differing_sizes(before, after, n);
            &&& forall|i: int|
                0 <= i < n ==> (found.contains(i as usize) <==> !(same_number(
                    entry_at(before, i).size.width,
                    (#[trigger] after[i]).size.width,
                ) && same_number(entry_at(before, i).size.height, after[i].size.height)))
            &&& forall|k: int| 0 <= k < found.len() ==> #[trigger] found[k] < n
            &&& forall|k: int, l: int|
                0 <= k < l < found.len() ==> #[trigger] found[k] < #[trigger] found[l]
        }),
    decreases n,
{
    if n > 0 {
        law_differing_sizes(before, after, (n - 1) as nat);
        let sofar = differing_sizes(before, after, (n - 1) as nat);
        let found = differing_sizes(before, after, n);
        assert forall|i: int| 0 <= i < n implies (found.contains(i as usize) <==> !(same_number(
            entry_at(before, i).size.width,
            (#[trigger] after[i]).size.width,
        ) && same_number(entry_at(before, i).size.height, after[i].size.height))) by {
            if i < n - 1 {
                if sofar.contains(i as usize) {
                    let k = choose|k: int| 0 <= k < sofar.len() && sofar[k] == i as usize;
                    assert(found[k] == i as usize);
                } else if found.contains(i as usize) {
                    let k = choose|k: int| 0 <= k < found.len() && found[k] == i as usize;
                    assert(sofar[k] == i as usize);
                }
            } else if found.len() > sofar.len() {
                assert(found[found.len() - 1] == i as usize);
            }
        }
    }
}

/// A new page count keeps the pages that both tables have, and new pages are A4 with
/// nothing on them.
pub proof fn law_new_page_count(entries: Seq<PageTableEntry>, total: nat, i: int)
    requires
        0 <= i < total,
    ensures
        base_entries(entries, total, false).len() == total,
        base_entries(entries, total, true).len() == total,
        i < entries.len() ==> base_entries(entries, total, false)[i] == entries[i],
        i >= entries.len() ==> base_entries(entries, total, false)[i].content is None
            && base_entries(entries, total, false)[i].size.width == A4_WIDTH
            && base_entries(entries, total, false)[i].size.height == A4_HEIGHT,
        base_entries(entries, total, true)[i].content is None,
        base_entries(entries, total, true)[i].size.width == A4_WIDTH,
        base_entries(entries, total, true)[i].size.height == A4_HEIGHT,
{
}

/// An id that some indices rely on is the content of one of them or shown at it.
pub proof fn law_used_ids_are_relied_on(table: PageTable, indices: Seq<usize>, n: nat, k: int)
    requires
        n <= indices.len(),
        0 <= k < table.used_ids(indices, n).len(),
    ensures
        exists|j: int|
            0 <= j < n && (table.content(#[trigger] indices[j] as int) == Some(
                table.used_ids(indices, n)[k],
            ) || table.shown(indices[j] as int) == Some(table.used_ids(indices, n)[k])),
    decreases n,
{
    if n > 0 {
        let before = table.used_ids(indices, (n - 1) as nat);
        if k < before.len() {
            law_used_ids_are_relied_on(table, indices, (n - 1) as nat, k);
            assert(table.used_ids(indices, n)[k] == before[k]);
        } else {
            assert(indices[n - 1] == indices[n - 1]);
        }
    }
}

} // verus!
