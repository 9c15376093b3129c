//! Where the pages of a preview are: list layout, scroll position, messages and
//! which indices are visible.
use crate::text::{decimal, push_decimal};
use crate::typst_viewer::decode::RenderImage;
use crate::typst_viewer::image_cache::{drawn_at, PageImage};
use crate::typst_viewer::page_table::{distance, listed, PageTable, TableDelta};
use crate::typst_viewer::preview_session::{ConnectionStatus, PreviewSession, Viewport};
use crate::typst_viewer::protocol::ContentId;
use std::ops::Range;
use std::sync::Arc;
use vstd::prelude::*;
use vstd::string::*;

verus! {

/// Pages beyond the visible range to subscribe to, so that we never ask for
/// pages the list will not render, nor render pages we never subscribed to.
pub const PREFETCH_MARGIN: usize = 2;

/// The pages to hold for a visible range: some more on both sides.
pub fn viewport_for(visible: Range<usize>) -> (r: Viewport)
    requires
        visible.end <= usize::MAX - PREFETCH_MARGIN,
    ensures
        r.visible == visible,
        r.prefetch.start == if visible.start < PREFETCH_MARGIN {
            0
        } else {
            visible.start - PREFETCH_MARGIN
        },
        r.prefetch.end == visible.end + PREFETCH_MARGIN,
{
    let prefetch_start: usize = visible.start.saturating_sub(PREFETCH_MARGIN);
    let prefetch_end: usize = visible.end + PREFETCH_MARGIN;
    Viewport { visible, prefetch: prefetch_start..prefetch_end }
}

/// What a change of the page table means to the list of pages.
#[derive(Debug)]
pub struct ListPlan {
    /// Slots to replace by a number of new ones.
    pub splice: Option<(Range<usize>, usize)>,
    /// Slots to measure again.
    pub remeasure: Option<Range<usize>>,
    /// The slot to scroll to, keeping the offset in it.
    pub scroll_to: Option<usize>,
}

/// The smallest member of a sequence.
pub open spec fn smallest(indices: Seq<usize>) -> Option<usize>
    decreases indices.len(),
{
    if indices.len() == 0 {
        None
    } else {
        let before = smallest(indices.drop_last());
        match before {
            Some(least) => if indices.last() < least {
                Some(indices.last())
            } else {
                before
            },
            None => Some(indices.last()),
        }
    }
}

/// Keeps the list in sync with the page table. `anchor` is the slot at the top
/// of the viewport and `anchor_content` what it held before the table changed.
///
/// Three questions, three mechanisms:
///
/// - *Which slots exist?* Slots are only ever added or removed at the end: a
///   splice that contains the anchor would jump to the top.
/// - *Which existing slots changed height?* All from the first one on.
/// - *Where should the viewport point afterwards?* At the same *content*, since
///   editing above the viewport shifts a page down without changing it. Where
///   the content is gone, the list's own anchor is the fallback.
pub fn apply_table_delta(
    delta: &TableDelta,
    table: &PageTable,
    old_count: usize,
    anchor: usize,
    anchor_content: Option<ContentId>,
) -> (plan: ListPlan)
    ensures
        plan.splice == if delta.total > old_count {
            Some((Range { start: old_count, end: old_count }, (delta.total - old_count) as usize))
        } else if delta.total < old_count {
            Some((Range { start: delta.total, end: old_count }, 0usize))
        } else {
            None
        },
        plan.remeasure == match smallest(listed(delta.geometry_changed)) {
            Some(first) => Some(Range { start: first, end: delta.total }),
            None => None,
        },
        plan.scroll_to matches Some(index) ==> {
            &&& delta.content_moved
            &&& anchor_content is Some
            &&& index != anchor
            &&& table.content(index as int) == anchor_content
            &&& forall|j: int|
                #[trigger] table.content(j) == anchor_content ==> distance(
                    index as int,
                    anchor as int,
                ) < distance(j, anchor as int) || (distance(index as int, anchor as int)
                    == distance(j, anchor as int) && index <= j)
        },
        plan.scroll_to is None ==> {
            ||| !delta.content_moved
            ||| anchor_content is None
            ||| table.content(anchor as int) == anchor_content
            ||| forall|j: int| #[trigger] table.content(j) != anchor_content
        },
{
    let splice = if delta.total > old_count {
        Some((old_count..old_count, delta.total - old_count))
    } else if delta.total < old_count {
        Some((delta.total..old_count, 0usize))
    } else {
        None
    };
    let changed = delta.geometry_changed.as_slice();
    let mut first: Option<usize> = None;
    let mut k: usize = 0;
    assert(changed@.take(0) =~= Seq::<usize>::empty());
    while k < changed.len()
        invariant
            k <= changed@.len(),
            first == smallest(changed@.take(k as int)),
        decreases changed@.len() - k,
    {
        assert(changed@.take(k + 1).drop_last() =~= changed@.take(k as int));
        let index: usize = changed[k];
        first = match first {
            Some(least) => if index < least {
                Some(index)
            } else {
                Some(least)
            },
            None => Some(index),
        };
        k = k + 1;
    }
    assert(changed@.take(k as int) =~= changed@);
    let remeasure = match first {
        Some(first) => Some(first..delta.total),
        None => None,
    };
    let mut scroll_to: Option<usize> = None;
    if delta.content_moved {
        if let Some(content) = anchor_content {
            if let Some(index) = table.find_content(content, anchor) {
                if index != anchor {
                    scroll_to = Some(index);
                }
            }
        }
    }
    ListPlan { splice, remeasure, scroll_to }
}

/// What is drawn in a slot of the list.
#[derive(Debug)]
pub enum PageView {
    /// The table has no such page.
    Nothing,
    /// A page image, in the size that the table gives the page.
    Image(Arc<RenderImage>),
    /// A message in place of a page that will not render.
    Message(String),
    /// An empty page.
    Placeholder,
}

/// Decides what to draw at an index. A stale image is drawn like a current one:
/// it is correct content at the wrong resolution.
pub fn render_page(session: &PreviewSession, index: usize) -> (r: PageView)
    requires
        index < usize::MAX,
    ensures
        if index >= session.table.entries@.len() {
            r is Nothing
        } else {
            match drawn_at(&session.table, &session.images, index as int, session.scale) {
                PageImage::Current(image) => r == PageView::Image(image),
                PageImage::Stale(image) => r == PageView::Image(image),
                PageImage::Failed => r matches PageView::Message(text) && text@ == "Page "@
                    + decimal((index + 1) as nat) + " could not be rendered"@,
                PageImage::Missing => r is Placeholder,
            }
        },
{
    if index >= session.table.len() {
        return PageView::Nothing;
    }
    match session.image_at(index) {
        PageImage::Current(image) => PageView::Image(image),
        PageImage::Stale(image) => PageView::Image(image),
        PageImage::Failed => {
            let mut text = "Page ".to_owned();
            push_decimal(&mut text, index as u64 + 1);
            text.append(" could not be rendered");
            PageView::Message(text)
        },
        PageImage::Missing => PageView::Placeholder,
    }
}

/// The message shown in place of the pages, if any.
pub fn status_message(status: &ConnectionStatus, total: usize) -> (r: Option<String>)
    ensures
        match status {
            ConnectionStatus::Connecting => r matches Some(text) && text@
                == "Connecting to preview server…"@,
            ConnectionStatus::Error { message } => r matches Some(text) && text@ == "Error: "@
                + message@,
            ConnectionStatus::Disconnected { reason } => r matches Some(text) && text@
                == "Disconnected: "@ + reason@,
            ConnectionStatus::Connected => if total == 0 {
                r matches Some(text) && text@ == "Waiting for the document to compile…"@
            } else {
                r is None
            },
        },
{
    match status {
        ConnectionStatus::Connecting => Some("Connecting to preview server…".to_owned()),
        ConnectionStatus::Error { message } => {
            let mut text = "Error: ".to_owned();
            text.append(message.as_str());
            Some(text)
        },
        ConnectionStatus::Disconnected { reason } => {
            let mut text = "Disconnected: ".to_owned();
            text.append(reason.as_str());
            Some(text)
        },
        ConnectionStatus::Connected => if total == 0 {
            Some("Waiting for the document to compile…".to_owned())
        } else {
            None
        },
    }
}

/// Whether an extension is that of a typst file, in either case.
pub fn is_typst_extension(extension: &str) -> (r: bool)
    ensures
        r == (extension.spec_bytes().len() == 3 && lower(extension.spec_bytes()[0]) == 0x74
            && lower(extension.spec_bytes()[1]) == 0x79 && lower(extension.spec_bytes()[2])
            == 0x70),
{
    let bytes = extension.as_bytes();
    bytes.len() == 3 && lowered(bytes[0]) == 0x74 && lowered(bytes[1]) == 0x79 && lowered(bytes[2])
        == 0x70
}

/// A byte with ASCII letters in lower case.
pub open spec fn lower(b: u8) -> u8 {
    crate::typst_viewer::protocol::lower(b)
}

fn lowered(b: u8) -> (r: u8)
    ensures
        r == lower(b),
{
    if 0x41 <= b && b <= 0x5a {
        b + 0x20
    } else {
        b
    }
}

/// The first preview among those of a pane that shows a buffer.
pub open spec fn preview_from(previews: Seq<Option<u64>>, buffer: u64, k: int) -> Option<int>
    decreases previews.len() - k,
{
    if k >= previews.len() {
        None
    } else if previews[k] == Some(buffer) {
        Some(k)
    } else {
        preview_from(previews, buffer, k + 1)
    }
}

/// Finds the preview that shows a buffer. A preview without a buffer shows none.
pub fn find_existing_preview(previews: &Vec<Option<u64>>, buffer: u64) -> (r: Option<usize>)
    ensures
        match r {
            Some(k) => preview_from(previews@, buffer, 0) == Some(k as int),
            None => preview_from(previews@, buffer, 0) is None,
        },
{
    let mut k: usize = 0;
    while k < previews.len()
        invariant
            k <= previews@.len(),
            preview_from(previews@, buffer, 0) == preview_from(previews@, buffer, k as int),
        decreases previews@.len() - k,
    {
        let same = match previews[k] {
            Some(id) => id == buffer,
            None => false,
        };
        if same {
            return Some(k);
        }
        k = k + 1;
    }
    None
}

/// The title of a preview's tab.
pub fn tab_content_text(file_name: Option<&str>) -> (s: String)
    ensures
        s@ == match file_name {
            Some(name) => "Preview "@ + name@,
            None => "Typst Preview"@,
        },
{
    match file_name {
        Some(name) => {
            let mut s = "Preview ".to_owned();
            s.append(name);
            s
        },
        None => "Typst Preview".to_owned(),
    }
}

/// The smallest member is a member, and no member is smaller.
pub proof fn law_smallest_member(indices: Seq<usize>)
    ensures
        match smallest(indices) {
            Some(least) => indices.contains(least) && forall|k: int|
                0 <= k < indices.len() ==> least <= #[trigger] indices[k],
            None => indices.len() == 0,
        },
    decreases indices.len(),
{
    if indices.len() > 0 {
        let earlier = indices.drop_last();
        law_smallest_member(earlier);
        if let Some(least) = smallest(earlier) {
            let k = choose|k: int| 0 <= k < earlier.len() && earlier[k] == least;
            assert(indices[k] == least);
            assert forall|j: int| 0 <= j < indices.len() implies smallest(indices)->0
                <= #[trigger] indices[j] by {
                if j < earlier.len() {
                    assert(earlier[j] == indices[j]);
                }
            }
        }
        assert(indices[indices.len() - 1] == indices.last());
    }
}

/// The preview of a buffer is the first one that shows it, and there is none only
/// where no preview shows it.
pub proof fn law_first_preview_of_buffer(previews: Seq<Option<u64>>, buffer: u64, from: int)
    requires
        0 <= from,
    ensures
        match preview_from(previews, buffer, from) {
            Some(k) => {
                &&& from <= k < previews.len()
                &&& previews[k] == Some(buffer)
                &&& forall|j: int| from <= j < k ==> previews[j] != Some(buffer)
            },
            None => forall|j: int| from <= j < previews.len() ==> previews[j] != Some(buffer),
        },
    decreases previews.len() - from,
{
    if from < previews.len() {
        law_first_preview_of_buffer(previews, buffer, from + 1);
    }
}

} // verus!
