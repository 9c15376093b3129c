//! The part of the preview that is not drawn: page table, image cache and the
//! outbound subscription.
//!
//! Owns *what* to show; the view owns *where and how big*.
use crate::text::str_eq;
use crate::typst_viewer::decode::{decode_page, payload_pixels, swapped, DecodeError, RenderImage};
use crate::typst_viewer::image_cache::{
    drawn_at, image_bytes, lookup_for_index, CachedImage, ImageCache, PageImage,
};
use crate::typst_viewer::page_table::{
    applied, base_entries, content_changes, geometry_changes, listed, new_list, push_index, resized,
    IndexList, PageTable, PageTableEntry, TableDelta,
};
use crate::typst_viewer::protocol::{
    ClientMessage, ContentId, Encoding, ImageHeader, TableEntryDelta, MAX_FRAME_BYTES, SUBPROTOCOL,
};
use std::collections::HashSet;
use std::ops::Range;
use std::sync::Arc;
use vstd::prelude::*;
use vstd::std_specs::hash::*;
use vstd::string::*;

verus! {

broadcast use vstd::std_specs::hash::group_hash_axioms;

/// The language server that renders previews.
pub const TINYMIST_SERVER_NAME: &'static str = "tinymist";

/// How long to wait after a viewport change before telling the server, in
/// milliseconds.
pub const VIEW_DEBOUNCE: u64 = 80;

/// Longer, because the work a scale change triggers is a whole-document
/// re-render rather than a few pages.
pub const SCALE_DEBOUNCE: u64 = 250;

/// The server caps the held set at this many pages, so asking for more is
/// pointless.
pub const MAX_HELD: usize = 64;

/// How often a connection is tried.
pub const MAX_ATTEMPTS: u32 = 3;

/// How long to wait before trying again, in milliseconds.
pub const RETRY_DELAY: u64 = 1000;

/// Response to the request to start a preview.
#[derive(Clone, Copy, Debug, PartialEq, Eq, Structural)]
pub struct StartPreviewResponse {
    pub data_plane_port: Option<u16>,
}

/// A connection failure that a retry cannot fix.
///
/// A refused WebSocket upgrade means that the server does not speak the
/// page-image protocol. Retrying is pointless and hides the real problem, which
/// is the one error here that is actionable by the user.
#[derive(Clone, Copy, Debug, PartialEq, Eq, Structural)]
pub struct UnsupportedServer;

impl UnsupportedServer {
    pub fn to_string(&self) -> (s: String)
        ensures
            s@ == "this tinymist does not support the page-image preview protocol ("@
                + SUBPROTOCOL@ + "); a newer tinymist is required"@,
    {
        let mut s = "this tinymist does not support the page-image preview protocol (".to_owned();
        s.append(SUBPROTOCOL);
        s.append("); a newer tinymist is required");
        s
    }
}

#[derive(Debug)]
pub enum ConnectionStatus {
    Connecting,
    Connected,
    Disconnected { reason: String },
    Error { message: String },
}

/// What a change of the session means to the view.
pub enum SessionEvent {
    StatusChanged,
    TableChanged(TableDelta),
    /// These indices now draw differently.
    PagesChanged(IndexList),
}

/// What the view has on screen, in indices.
#[derive(Debug)]
pub struct Viewport {
    pub visible: Range<usize>,
    pub prefetch: Range<usize>,
}

impl Default for Viewport {
    fn default() -> (r: Self)
        ensures
            r.visible == (Range { start: 0usize, end: 0usize }),
            r.prefetch == (Range { start: 0usize, end: 0usize }),
    {
        Viewport { visible: 0..0, prefetch: 0..0 }
    }
}

/// A frame after decoding, ready to apply.
pub enum Decoded {
    Pages { total: usize, full: bool, entries: Vec<TableEntryDelta> },
    Image { content: ContentId, image: Arc<RenderImage>, rendered_scale: u32 },
    Failed { content: ContentId, msg: String },
}

/// What the server and the view have told the session. Scales are the bits of
/// single-precision numbers.
pub struct PreviewSession {
    pub status: ConnectionStatus,
    pub table: PageTable,
    pub images: ImageCache,
    pub viewport: Viewport,
    /// Pixels per point, from the view.
    pub scale: u32,
    /// The scale the server was last *asked* for. Compared against rather than
    /// the last computed scale, so a slow continuous zoom cannot drift
    /// arbitrarily far with every step under the threshold.
    pub requested_scale: u32,
    /// Indices we still hold beyond `prefetch`, so scrolling back needs no
    /// resend.
    pub cached: Vec<usize>,
    /// Whether there is a connection to send to.
    pub connected: bool,
}

/// The bits of two, the scale of a new session.
pub const INITIAL_SCALE: u32 = 0x4000_0000;

/// Bits that stand for no number: no scale was asked for yet.
pub const NO_SCALE: u32 = 0x7fc0_0000;

/// The indices of a range that lie below `len`, in order.
pub open spec fn indices_in(range: Range<usize>, len: nat) -> Seq<usize> {
    let end = if range.end <= len {
        range.end as int
    } else {
        len as int
    };
    Seq::new(
        if range.start < end {
            (end - range.start) as nat
        } else {
            0
        },
        |i: int| (range.start + i) as usize,
    )
}

/// The indices of a sequence that lie below `len`.
pub open spec fn below(indices: Seq<usize>, len: nat) -> Seq<usize>
    decreases indices.len(),
{
    if indices.len() == 0 {
        Seq::empty()
    } else {
        let before = below(indices.drop_last(), len);
        if indices.last() < len {
            before.push(indices.last())
        } else {
            before
        }
    }
}

/// A sequence without repetitions, cut to the number of pages that can be held.
pub open spec fn first_held(indices: Seq<usize>) -> Seq<usize>
    decreases indices.len(),
{
    if indices.len() == 0 {
        Seq::empty()
    } else {
        let before = first_held(indices.drop_last());
        if before.contains(indices.last()) || before.len() >= MAX_HELD {
            before
        } else {
            before.push(indices.last())
        }
    }
}

/// The members of a sequence that are not in another.
pub open spec fn without(indices: Seq<usize>, other: Seq<usize>) -> Seq<usize>
    decreases indices.len(),
{
    if indices.len() == 0 {
        Seq::empty()
    } else {
        let before = without(indices.drop_last(), other);
        if other.contains(indices.last()) {
            before
        } else {
            before.push(indices.last())
        }
    }
}

/// At most a fixed number of pages is held, none twice, and each is one of
/// those asked for.
pub proof fn law_held_bounded(indices: Seq<usize>)
    ensures
        first_held(indices).len() <= MAX_HELD,
        first_held(indices).no_duplicates(),
        forall|k: int|
            0 <= k < first_held(indices).len() ==> indices.contains(
                #[trigger] first_held(indices)[k],
            ),
    decreases indices.len(),
{
    if indices.len() > 0 {
        let shorter = indices.drop_last();
        law_held_bounded(shorter);
        let held = first_held(indices);
        assert forall|k: int| 0 <= k < held.len() implies indices.contains(#[trigger] held[k]) by {
            if k < first_held(shorter).len() {
                let j = choose|j: int| 0 <= j < shorter.len() && shorter[j] == first_held(
                    shorter,
                )[k];
                assert(indices[j] == held[k]);
            } else {
                assert(indices[indices.len() - 1] == held[k]);
            }
        }
    }
}

/// Appends the indices of a range that lie below `len`, as long as more can be
/// held.
fn hold_range(held: &mut Vec<usize>, range: &Range<usize>, len: usize, Ghost(seen): Ghost<Seq<usize>>)
    requires
        old(held)@ == first_held(seen),
    ensures
        final(held)@ == first_held(seen + indices_in(*range, len as nat)),
{
    let end: usize = if range.end <= len {
        range.end
    } else {
        len
    };
    let ghost all = indices_in(*range, len as nat);
    let mut i: usize = range.start;
    assert(seen + all.take(0) =~= seen);
    while i < end
        invariant
            range.start <= i,
            i <= end || i == range.start,
            range.start < end ==> all.len() == end - range.start,
            range.start >= end ==> all.len() == 0,
            all == indices_in(*range, len as nat),
            end <= len,
            end == (if range.end <= len {
                range.end
            } else {
                len
            }),
            held@ == first_held(seen + all.take(i - range.start)),
        decreases end - i,
    {
        let ghost before = seen + all.take(i - range.start);
        let ghost now = seen + all.take(i - range.start + 1);
        assert(all[i - range.start] == i);
        assert(now.drop_last() =~= before);
        assert(now.last() == i);
        hold(held, i);
        i = i + 1;
    }
    assert(all.take(i - range.start) =~= all);
}

/// Holds an index if it is new and there is room.
fn hold(held: &mut Vec<usize>, index: usize)
    ensures
        final(held)@ == if old(held)@.contains(index) || old(held)@.len() >= MAX_HELD {
            old(held)@
        } else {
            old(held)@.push(index)
        },
{
    if held.len() < MAX_HELD && !contains(held, index) {
        held.push(index);
    }
}

/// Tests whether an index is in a list.
fn contains(indices: &Vec<usize>, index: usize) -> (r: bool)
    ensures
        r == indices@.contains(index),
{
    let mut k: usize = 0;
    while k < indices.len()
        invariant
            k <= indices@.len(),
            forall|j: int| 0 <= j < k ==> #[trigger] indices@[j] != index,
        decreases indices@.len() - k,
    {
        if indices[k] == index {
            assert(indices@[k as int] == index);
            return true;
        }
        k = k + 1;
    }
    false
}

/// The indices of a range below `len` that are not in a list.
fn range_without(range: &Range<usize>, len: usize, other: &Vec<usize>) -> (r: Vec<usize>)
    ensures
        r@ == without(indices_in(*range, len as nat), other@),
{
    let end: usize = if range.end <= len {
        range.end
    } else {
        len
    };
    let ghost all = indices_in(*range, len as nat);
    let mut r: Vec<usize> = Vec::new();
    let mut i: usize = range.start;
    assert(all.take(0) =~= Seq::<usize>::empty());
    while i < end
        invariant
            range.start <= i,
            i <= end || i == range.start,
            range.start < end ==> all.len() == end - range.start,
            range.start >= end ==> all.len() == 0,
            all == indices_in(*range, len as nat),
            end == (if range.end <= len {
                range.end
            } else {
                len
            }),
            r@ == without(all.take(i - range.start), other@),
        decreases end - i,
    {
        assert(all[i - range.start] == i);
        assert(all.take(i - range.start + 1).drop_last() =~= all.take(i - range.start));
        if !contains(other, i) {
            r.push(i);
        }
        i = i + 1;
    }
    assert(all.take(i - range.start) =~= all);
    r
}

/// What a session holds, in models.
#[verifier::ext_equal]
pub struct Contents {
    pub entries: Seq<PageTableEntry>,
    pub displayed: Seq<Option<ContentId>>,
    pub images: Map<u128, CachedImage>,
    pub failures: Set<u128>,
}

/// The positions of a content id in a table.
pub open spec fn indices_of(entries: Seq<PageTableEntry>, content: ContentId, n: nat) -> Seq<usize>
    decreases n,
{
    if n == 0 {
        Seq::empty()
    } else {
        let before = indices_of(entries, content, (n - 1) as nat);
        if entries[n - 1].content == Some(content) {
            before.push((n - 1) as usize)
        } else {
            before
        }
    }
}

/// What a session holds after a decoded frame.
pub open spec fn after_frame(contents: Contents, frame: Decoded) -> Contents {
    match frame {
        Decoded::Pages { total, full, entries } => Contents {
            entries: applied(base_entries(contents.entries, total as nat, full), entries@),
            displayed: resized(
                if full {
                    Seq::empty()
                } else {
                    contents.displayed
                },
                total as nat,
                None,
            ),
            ..contents
        },
        Decoded::Image { content, image, rendered_scale } => Contents {
            images: contents.images.insert(
                content.0,
                CachedImage {
                    content,
                    image,
                    rendered_scale,
                    bytes: image_bytes(*image) as usize,
                },
            ),
            failures: contents.failures.remove(content.0),
            ..contents
        },
        Decoded::Failed { content, .. } => Contents {
            images: contents.images.remove(content.0),
            failures: contents.failures.insert(content.0),
            ..contents
        },
    }
}

/// What a session holds after the first frames of a batch. None is left out.
pub open spec fn after_frames(contents: Contents, batch: Seq<Decoded>) -> Contents
    decreases batch.len(),
{
    if batch.len() == 0 {
        contents
    } else {
        after_frame(after_frames(contents, batch.drop_last()), batch.last())
    }
}

/// The indices that an image or a failure of a batch changes, in their order.
pub open spec fn changed_by(contents: Contents, batch: Seq<Decoded>) -> Seq<usize>
    decreases batch.len(),
{
    if batch.len() == 0 {
        Seq::empty()
    } else {
        let entries = after_frames(contents, batch.drop_last()).entries;
        changed_by(contents, batch.drop_last()) + match batch.last() {
            Decoded::Pages { .. } => Seq::empty(),
            Decoded::Image { content, .. } => indices_of(entries, content, entries.len()),
            Decoded::Failed { content, .. } => indices_of(entries, content, entries.len()),
        }
    }
}

/// The bytes of the images of a batch.
pub open spec fn batch_bytes(batch: Seq<Decoded>) -> int
    decreases batch.len(),
{
    if batch.len() == 0 {
        0
    } else {
        batch_bytes(batch.drop_last()) + match batch.last() {
            Decoded::Image { image, .. } => image_bytes(*image),
            _ => 0,
        }
    }
}

/// The content of an entry, where there is one at the index.
pub open spec fn content_in(entries: Seq<PageTableEntry>, index: int) -> Option<ContentId> {
    if 0 <= index < entries.len() {
        entries[index].content
    } else {
        None
    }
}

/// What is shown at each index once the held ones are noted: their content
/// where its image is there, otherwise what was shown before.
pub open spec fn noted(contents: Contents, held: Seq<usize>) -> Seq<Option<ContentId>> {
    Seq::new(
        contents.displayed.len(),
        |i: int|
            match content_in(contents.entries, i) {
                Some(id) => if contents.images.contains_key(id.0) && exists|k: int|
                    0 <= k < held.len() && #[trigger] held[k] == i {
                    Some(id)
                } else {
                    contents.displayed[i]
                },
                None => contents.displayed[i],
            },
    )
}

/// Whether a held index has an id as its content or shows it.
pub open spec fn relied_on(
    entries: Seq<PageTableEntry>,
    displayed: Seq<Option<ContentId>>,
    held: Seq<usize>,
    id: u128,
) -> bool {
    exists|k: int|
        0 <= k < held.len() && {
            let i = #[trigger] held[k] as int;
            ||| content_in(entries, i) == Some(ContentId(id))
            ||| 0 <= i < displayed.len() && displayed[i] == Some(ContentId(id))
        }
}

/// What a session holds once it noted what the held indices show and dropped
/// every image that none of them relies on.
pub open spec fn settled(contents: Contents, held: Seq<usize>) -> Contents {
    let displayed = noted(contents, held);
    Contents {
        entries: contents.entries,
        displayed,
        images: contents.images.restrict(
            Set::new(|id: u128| relied_on(contents.entries, displayed, held, id)),
        ),
        failures: contents.failures.intersect(
            Set::new(|id: u128| relied_on(contents.entries, displayed, held, id)),
        ),
    }
}

/// An image that a held index has as its content is still there, the same, once the
/// session is settled.
pub proof fn law_held_images_stay(contents: Contents, held: Seq<usize>, k: int, id: ContentId)
    requires
        0 <= k < held.len(),
        content_in(contents.entries, held[k] as int) == Some(id),
        contents.images.contains_key(id.0),
    ensures
        settled(contents, held).images.contains_pair(id.0, contents.images[id.0]),
{
    assert(content_in(contents.entries, held[k] as int) == Some(ContentId(id.0)));
    assert(relied_on(contents.entries, noted(contents, held), held, id.0));
}

/// An image that no held index has as its content or shows is dropped: what is held
/// is all that takes memory.
pub proof fn law_other_images_leave(contents: Contents, held: Seq<usize>, id: u128)
    requires
        !relied_on(contents.entries, noted(contents, held), held, id),
    ensures
        !settled(contents, held).images.contains_key(id),
        !settled(contents, held).failures.contains(id),
{
}

/// It does not matter how frames are put into batches: none is lost.
pub proof fn law_batches_accumulate(contents: Contents, first: Seq<Decoded>, second: Seq<Decoded>)
    ensures
        after_frames(contents, first + second) == after_frames(
            after_frames(contents, first),
            second,
        ),
    decreases second.len(),
{
    if second.len() == 0 {
        assert(first + second =~= first);
    } else {
        assert((first + second).drop_last() =~= first + second.drop_last());
        law_batches_accumulate(contents, first, second.drop_last());
    }
}

/// The `pages` frames of a batch, in their order.
pub open spec fn pages_of(batch: Seq<Decoded>) -> Seq<Decoded>
    decreases batch.len(),
{
    if batch.len() == 0 {
        Seq::empty()
    } else if batch.last() is Pages {
        pages_of(batch.drop_last()).push(batch.last())
    } else {
        pages_of(batch.drop_last())
    }
}

/// A table after `pages` frames were applied to it, each in its turn.
pub open spec fn table_after(entries: Seq<PageTableEntry>, frames: Seq<Decoded>) -> Seq<
    PageTableEntry,
>
    decreases frames.len(),
{
    if frames.len() == 0 {
        entries
    } else {
        let before = table_after(entries, frames.drop_last());
        match frames.last() {
            Decoded::Pages { total, full, entries: deltas } => applied(
                base_entries(before, total as nat, full),
                deltas@,
            ),
            _ => before,
        }
    }
}

/// The table after a batch is the one that every `pages` frame of it gives in its
/// turn: none is dropped or merged with another, and settling keeps it.
pub proof fn law_every_pages_frame_applies(
    contents: Contents,
    batch: Seq<Decoded>,
    held: Seq<usize>,
)
    ensures
        settled(after_frames(contents, batch), held).entries == table_after(
            contents.entries,
            pages_of(batch),
        ),
    decreases batch.len(),
{
    if batch.len() > 0 {
        law_every_pages_frame_applies(contents, batch.drop_last(), held);
        if batch.last() is Pages {
            let before = pages_of(batch.drop_last());
            assert(before.push(batch.last()).drop_last() =~= before);
        }
    }
}

/// Of two images in a row of the same content only the last matters.
pub proof fn law_last_image_wins(
    contents: Contents,
    content: ContentId,
    first: (Arc<RenderImage>, u32),
    last: (Arc<RenderImage>, u32),
)
    ensures
        ({
            let earlier = Decoded::Image { content, image: first.0, rendered_scale: first.1 };
            let later = Decoded::Image { content, image: last.0, rendered_scale: last.1 };
            after_frame(after_frame(contents, earlier), later) == after_frame(contents, later)
        }),
{
    let earlier = Decoded::Image { content, image: first.0, rendered_scale: first.1 };
    let later = Decoded::Image { content, image: last.0, rendered_scale: last.1 };
    assert(after_frame(after_frame(contents, earlier), later) =~= after_frame(contents, later));
}

/// A failure is not final: an image that arrives for the same content replaces it.
pub proof fn law_failures_recover(
    contents: Contents,
    content: ContentId,
    msg: String,
    image: Arc<RenderImage>,
    rendered_scale: u32,
)
    ensures
        ({
            let failed = after_frame(contents, Decoded::Failed { content, msg });
            let recovered = after_frame(
                failed,
                Decoded::Image { content, image, rendered_scale },
            );
            &&& failed.failures.contains(content.0)
            &&& !recovered.failures.contains(content.0)
            &&& recovered.images.contains_key(content.0)
            &&& recovered.images[content.0].image == image
            &&& recovered.images[content.0].rendered_scale == rendered_scale
        }),
{
}

impl PreviewSession {
    /// The table and the cache are valid.
    pub open spec fn inv(&self) -> bool {
        self.table.inv() && self.images.inv()
    }

    /// What the session holds.
    pub open spec fn contents(&self) -> Contents {
        Contents {
            entries: self.table.entries@,
            displayed: self.table.displayed@,
            images: self.images.images(),
            failures: self.images.failures(),
        }
    }

    /// The indices to hold for a table of a length: the visible ones, those
    /// around them and those held before.
    pub open spec fn held_for(&self, len: nat) -> Seq<usize> {
        first_held(
            indices_in(self.viewport.visible, len) + indices_in(self.viewport.prefetch, len)
                + below(self.cached@, len),
        )
    }

    /// A session without a connection.
    pub fn new() -> (r: Self)
        ensures
            r.inv(),
            r.status is Connecting,
            r.table.entries@.len() == 0,
            r.contents().images == Map::<u128, CachedImage>::empty(),
            r.contents().failures == Set::<u128>::empty(),
            r.scale == INITIAL_SCALE,
            r.requested_scale == NO_SCALE,
            r.cached@.len() == 0,
            !r.connected,
            r.viewport.visible == (Range { start: 0usize, end: 0usize }),
            r.viewport.prefetch == (Range { start: 0usize, end: 0usize }),
    {
        let r = PreviewSession {
            status: ConnectionStatus::Connecting,
            table: PageTable::default(),
            images: ImageCache::default(),
            viewport: Viewport::default(),
            scale: INITIAL_SCALE,
            requested_scale: NO_SCALE,
            cached: Vec::new(),
            connected: false,
        };
        assert(r.contents().images =~= Map::<u128, CachedImage>::empty());
        assert(r.contents().failures =~= Set::<u128>::empty());
        r
    }

    pub fn status(&self) -> (r: &ConnectionStatus)
        ensures
            *r == self.status,
    {
        &self.status
    }

    pub fn table(&self) -> (r: &PageTable)
        ensures
            *r == self.table,
    {
        &self.table
    }

    pub fn resident_bytes(&self) -> (n: usize)
        requires
            self.inv(),
        ensures
            n == self.images.resident_bytes,
    {
        self.images.resident_bytes()
    }

    /// The image to draw at `index`, and whether it is current.
    ///
    /// Does no work: decoding happens on arrival, not on demand, so nothing is
    /// assembled on the render path.
    pub fn image_at(&self, index: usize) -> (r: PageImage)
        ensures
            r == drawn_at(&self.table, &self.images, index as int, self.scale),
    {
        lookup_for_index(&self.table, &self.images, index, self.scale)
    }

    /// Changes the connection status.
    pub fn set_status(&mut self, status: ConnectionStatus) -> (event: SessionEvent)
        ensures
            *final(self) == (PreviewSession { status, ..*old(self) }),
            event is StatusChanged,
    {
        self.status = status;
        SessionEvent::StatusChanged
    }

    /// Declare what is on screen and at what resolution. `scale_changed` says
    /// whether the scale differs from the session's, and `scale_send_due`
    /// whether it differs from the one last asked for by more than the
    /// threshold under which rendering again shows no gain.
    ///
    /// The scale is recorded immediately so that images are reported as stale
    /// and the view redraws at the new size; only the *wire send* is debounced.
    /// Returns whether to redraw, and after how many milliseconds to send the
    /// view, replacing a pending send.
    pub fn set_viewport(
        &mut self,
        viewport: Viewport,
        scale: u32,
        scale_changed: bool,
        scale_send_due: bool,
    ) -> (r: (bool, Option<u64>))
        ensures
            final(self).viewport == viewport,
            final(self).scale == if scale_changed {
                scale
            } else {
                old(self).scale
            },
            final(self).table == old(self).table,
            final(self).images == old(self).images,
            final(self).status == old(self).status,
            final(self).requested_scale == old(self).requested_scale,
            final(self).cached == old(self).cached,
            final(self).connected == old(self).connected,
            r.0 == scale_changed,
            r.1 == if viewport == old(self).viewport && !scale_changed {
                None
            } else if scale_send_due {
                Some(SCALE_DEBOUNCE)
            } else {
                Some(VIEW_DEBOUNCE)
            },
    {
        let same = viewport.visible.start == self.viewport.visible.start && viewport.visible.end
            == self.viewport.visible.end && viewport.prefetch.start == self.viewport.prefetch.start
            && viewport.prefetch.end == self.viewport.prefetch.end;
        assert(same == (viewport == self.viewport));
        self.viewport = viewport;
        if scale_changed {
            self.scale = scale;
        }
        if same && !scale_changed {
            return (false, None);
        }
        (
            scale_changed,
            if scale_send_due {
                Some(SCALE_DEBOUNCE)
            } else {
                Some(VIEW_DEBOUNCE)
            },
        )
    }

    /// The indices that are held, each once and no more than the server allows.
    pub fn held_indices(&self) -> (held: Vec<usize>)
        ensures
            held@ == self.held_for(self.table.entries@.len()),
    {
        let len: usize = self.table.len();
        let ghost visible = indices_in(self.viewport.visible, len as nat);
        let ghost prefetch = indices_in(self.viewport.prefetch, len as nat);
        let ghost seen = visible + prefetch;
        let mut held: Vec<usize> = Vec::new();
        assert(Seq::<usize>::empty() + visible =~= visible);
        hold_range(&mut held, &self.viewport.visible, len, Ghost(Seq::empty()));
        hold_range(&mut held, &self.viewport.prefetch, len, Ghost(visible));
        let mut k: usize = 0;
        assert(self.cached@.take(0) =~= Seq::<usize>::empty());
        assert(seen + below(self.cached@.take(0), len as nat) =~= seen);
        while k < self.cached.len()
            invariant
                k <= self.cached@.len(),
                len == self.table.entries@.len(),
                held@ == first_held(seen + below(self.cached@.take(k as int), len as nat)),
            decreases self.cached@.len() - k,
        {
            let index: usize = self.cached[k];
            let ghost before = below(self.cached@.take(k as int), len as nat);
            assert(self.cached@.take(k + 1).drop_last() =~= self.cached@.take(k as int));
            if index < len {
                assert((seen + before.push(index)).drop_last() =~= seen + before);
                hold(&mut held, index);
            }
            k = k + 1;
        }
        assert(self.cached@.take(k as int) =~= self.cached@);
        held
    }

    /// The subscription to send, if there is a connection. `scale` is the
    /// session's scale as a JSON number.
    pub fn send_view(&mut self, scale: String) -> (r: Option<ClientMessage>)
        ensures
            *final(self) == (PreviewSession {
                requested_scale: if old(self).connected {
                    old(self).scale
                } else {
                    old(self).requested_scale
                },
                ..*old(self)
            }),
            r is Some <==> old(self).connected,
            r matches Some(message) ==> {
                let len = old(self).table.entries@.len();
                let shown = indices_in(old(self).viewport.visible, len);
                let around = without(indices_in(old(self).viewport.prefetch, len), shown);
                &&& message matches ClientMessage::View {
                    visible,
                    prefetch,
                    cached,
                    scale: text,
                    encoding,
                }
                &&& visible@ == shown
                &&& prefetch@ == around
                &&& cached@ == without(
                    without(below(old(self).cached@, len), shown),
                    around,
                )
                &&& text == scale
                &&& encoding == Encoding::Raw
            },
    {
        if !self.connected {
            return None;
        }
        let len: usize = self.table.len();
        let none: Vec<usize> = Vec::new();
        let visible = range_without(&self.viewport.visible, len, &none);
        proof {
            lemma_without_nothing(indices_in(self.viewport.visible, len as nat), none@);
        }
        let prefetch = range_without(&self.viewport.prefetch, len, &visible);
        let mut cached: Vec<usize> = Vec::new();
        let mut k: usize = 0;
        assert(self.cached@.take(0) =~= Seq::<usize>::empty());
        while k < self.cached.len()
            invariant
                k <= self.cached@.len(),
                cached@ == without(
                    without(below(self.cached@.take(k as int), len as nat), visible@),
                    prefetch@,
                ),
            decreases self.cached@.len() - k,
        {
            let index: usize = self.cached[k];
            assert(self.cached@.take(k + 1).drop_last() =~= self.cached@.take(k as int));
            let ghost under = below(self.cached@.take(k as int), len as nat);
            assert(under.push(index).drop_last() =~= under);
            let ghost unseen = without(under, visible@);
            assert(unseen.push(index).drop_last() =~= unseen);
            if index < len && !contains(&visible, index) && !contains(&prefetch, index) {
                cached.push(index);
            }
            k = k + 1;
        }
        assert(self.cached@.take(k as int) =~= self.cached@);
        self.requested_scale = self.scale;
        Some(ClientMessage::View { visible, prefetch, cached, scale, encoding: Encoding::Raw })
    }
}

proof fn lemma_without_nothing(indices: Seq<usize>, none: Seq<usize>)
    requires
        none.len() == 0,
    ensures
        without(indices, none) == indices,
    decreases indices.len(),
{
    if indices.len() > 0 {
        lemma_without_nothing(indices.drop_last(), none);
        assert(indices.drop_last().push(indices.last()) =~= indices);
    }
}

/// The positions of the `pages` frames among the first `n` of a batch.
pub open spec fn page_frames(batch: Seq<Decoded>, n: nat) -> Seq<int>
    decreases n,
{
    if n == 0 {
        Seq::empty()
    } else {
        let before = page_frames(batch, (n - 1) as nat);
        if batch[n - 1] is Pages {
            before.push(n - 1)
        } else {
            before
        }
    }
}

/// Whether a delta is what a `pages` frame changes in a table.
pub open spec fn describes_change(
    delta: TableDelta,
    entries: Seq<PageTableEntry>,
    frame: Decoded,
) -> bool {
    match frame {
        Decoded::Pages { total, full, entries: deltas } => {
            &&& delta.total == total
            &&& delta.total_changed == (total != entries.len())
            &&& listed(delta.geometry_changed) == geometry_changes(
                entries,
                total as nat,
                full,
                deltas@,
            )
            &&& delta.content_moved == content_changes(entries, total as nat, full, deltas@)
        },
        _ => false,
    }
}

/// Whether the events are those of the `pages` frames of a batch: one for each,
/// in their order.
pub open spec fn table_events(
    events: Seq<SessionEvent>,
    contents: Contents,
    batch: Seq<Decoded>,
) -> bool {
    let frames = page_frames(batch, batch.len());
    &&& events.len() == frames.len()
    &&& forall|k: int|
        0 <= k < events.len() ==> (#[trigger] events[k] matches SessionEvent::TableChanged(delta)
            && describes_change(
            delta,
            after_frames(contents, batch.take(frames[k])).entries,
            batch[frames[k]],
        ))
}

/// Whether the events of a batch are complete: those of the `pages` frames, and
/// then one for the indices that draw differently, if there are any.
pub open spec fn batch_events(
    events: Seq<SessionEvent>,
    contents: Contents,
    batch: Seq<Decoded>,
) -> bool {
    let changed = changed_by(contents, batch);
    if changed.len() == 0 {
        table_events(events, contents, batch)
    } else {
        &&& events.len() > 0
        &&& table_events(events.drop_last(), contents, batch)
        &&& events.last() matches SessionEvent::PagesChanged(list)
        &&& listed(list) == changed
    }
}

proof fn lemma_batch_bytes(batch: Seq<Decoded>, n: int)
    requires
        0 <= n <= batch.len(),
    ensures
        0 <= batch_bytes(batch.take(n)) <= batch_bytes(batch),
    decreases batch.len(),
{
    if n == batch.len() {
        assert(batch.take(n) =~= batch);
        if n > 0 {
            lemma_batch_bytes(batch.drop_last(), n - 1);
            assert(batch.drop_last().take(n - 1) =~= batch.drop_last());
            lemma_image_bytes(batch.last());
        }
    } else {
        lemma_batch_bytes(batch.drop_last(), n);
        assert(batch.drop_last().take(n) =~= batch.take(n));
        lemma_image_bytes(batch.last());
    }
}

proof fn lemma_image_bytes(frame: Decoded)
    ensures
        frame matches Decoded::Image { image, .. } ==> image_bytes(*image) >= 0,
{
    if let Decoded::Image { image, .. } = frame {
        let (w, h) = (image.width as int, image.height as int);
        assert(w * h * 4 >= 0) by (nonlinear_arith)
            requires
                w >= 0,
                h >= 0,
        ;
    }
}

/// The ids in use are those that an index relies on.
proof fn lemma_relied_on(table: &PageTable, held: Seq<usize>, n: nat, id: u128)
    requires
        table.inv(),
        n <= held.len(),
    ensures
        table.used_ids(held, n).contains(ContentId(id)) <==> relied_on(
            table.entries@,
            table.displayed@,
            held.take(n as int),
            id,
        ),
    decreases n,
{
    let all = table.used_ids(held, n);
    let wanted = ContentId(id);
    if n == 0 {
        assert(!all.contains(wanted));
    } else {
        let m = (n - 1) as nat;
        lemma_relied_on(table, held, m, id);
        let before = table.used_ids(held, m);
        let i = held[n - 1] as int;
        let content = crate::typst_viewer::page_table::as_seq(table.content(i));
        let shown = crate::typst_viewer::page_table::as_seq(table.shown(i));
        assert(all == before + content + shown);
        let longer = held.take(n as int);
        let shorter = held.take(m as int);
        assert(longer[n - 1] == held[n - 1]);
        if all.contains(wanted) {
            let j = choose|j: int| 0 <= j < all.len() && all[j] == wanted;
            if j < before.len() {
                assert(before[j] == wanted);
                assert(before.contains(wanted));
                let k = choose|k: int|
                    0 <= k < shorter.len() && {
                        let i = #[trigger] shorter[k] as int;
                        ||| content_in(table.entries@, i) == Some(wanted)
                        ||| 0 <= i < table.displayed@.len() && table.displayed@[i] == Some(wanted)
                    };
                assert(longer[k] == shorter[k]);
            }
        }
        if relied_on(table.entries@, table.displayed@, longer, id) {
            let k = choose|k: int|
                0 <= k < longer.len() && {
                    let i = #[trigger] longer[k] as int;
                    ||| content_in(table.entries@, i) == Some(wanted)
                    ||| 0 <= i < table.displayed@.len() && table.displayed@[i] == Some(wanted)
                };
            if k < m {
                assert(shorter[k] == longer[k]);
                assert(before.contains(wanted));
                let j = choose|j: int| 0 <= j < before.len() && before[j] == wanted;
                assert(all[j] == wanted);
            } else if table.content(i) == Some(wanted) {
                assert(all[before.len() as int] == wanted);
            } else {
                assert(all[(before.len() + content.len()) as int] == wanted);
            }
        }
    }
}

impl PreviewSession {
    /// Appends the indices that a content id is at.
    fn note_indices_for(&self, content: ContentId, out: &mut IndexList)
        ensures
            listed(*final(out)) == listed(*old(out)) + indices_of(
                self.table.entries@,
                content,
                self.table.entries@.len(),
            ),
    {
        let ghost before = listed(*out);
        let mut n: usize = 0;
        assert(before + indices_of(self.table.entries@, content, 0) =~= before);
        while n < self.table.len()
            invariant
                n <= self.table.entries@.len(),
                listed(*out) == before + indices_of(self.table.entries@, content, n as nat),
            decreases self.table.entries@.len() - n,
        {
            let same = match self.table.content_at(n) {
                Some(id) => id.0 == content.0,
                None => false,
            };
            let ghost sofar = indices_of(self.table.entries@, content, n as nat);
            if same {
                push_index(out, n);
                assert((before + sofar).push(n) =~= before + sofar.push(n));
            }
            n = n + 1;
        }
    }

    /// Notes which content each held index is now drawing, so a later keystroke
    /// has something to show while the replacement decodes.
    fn record_displayed(&mut self, held: &Vec<usize>)
        requires
            old(self).inv(),
        ensures
            final(self).inv(),
            final(self).table.entries == old(self).table.entries,
            final(self).table.displayed@ == noted(old(self).contents(), held@),
            final(self).images == old(self).images,
            final(self).viewport == old(self).viewport,
            final(self).scale == old(self).scale,
            final(self).requested_scale == old(self).requested_scale,
            final(self).cached == old(self).cached,
            final(self).connected == old(self).connected,
            final(self).status == old(self).status,
    {
        let ghost before = *self;
        let ghost contents = self.contents();
        let mut k: usize = 0;
        assert(noted(contents, held@.take(0)) =~= self.table.displayed@);
        while k < held.len()
            invariant
                k <= held@.len(),
                contents == before.contents(),
                before.inv(),
                self.table.entries == before.table.entries,
                self.table.displayed@ == noted(contents, held@.take(k as int)),
                self.images == before.images,
                self.viewport == before.viewport,
                self.scale == before.scale,
                self.requested_scale == before.requested_scale,
                self.cached == before.cached,
                self.connected == before.connected,
                self.status == before.status,
            decreases held@.len() - k,
        {
            let index: usize = held[k];
            let ghost shown = self.table.displayed@;
            let ghost shorter = held@.take(k as int);
            let ghost longer = held@.take(k + 1);
            assert(longer[k as int] == index);
            if let Some(content) = self.table.content_at(index) {
                let drawable = match self.images.lookup(Some(content), self.scale) {
                    PageImage::Current(_) => true,
                    PageImage::Stale(_) => true,
                    _ => false,
                };
                assert(drawable == contents.images.contains_key(content.0));
                if drawable {
                    self.table.record_displayed(index, content);
                }
            }
            proof {
                let now = noted(contents, longer);
                assert forall|i: int| 0 <= i < now.len() implies self.table.displayed@[i]
                    == now[i] by {
                    assert(shown[i] == noted(contents, shorter)[i]);
                    let in_shorter = exists|j: int|
                        0 <= j < shorter.len() && #[trigger] shorter[j] == i;
                    let in_longer = exists|j: int|
                        0 <= j < longer.len() && #[trigger] longer[j] == i;
                    if in_shorter {
                        let j = choose|j: int| 0 <= j < shorter.len() && #[trigger] shorter[j] == i;
                        assert(longer[j] == i);
                    }
                    if in_longer && i != index {
                        let j = choose|j: int| 0 <= j < longer.len() && #[trigger] longer[j] == i;
                        assert(shorter[j] == i);
                    }
                }
                assert(self.table.displayed@ =~= now);
            }
            k = k + 1;
        }
        assert(held@.take(k as int) =~= held@);
    }

    /// Drops images no held index relies on.
    ///
    /// Retention is declared in **indices** but the cache is keyed by **content
    /// id**, so it runs through the table. It covers both the id an index
    /// *should* show and the one it is *currently* showing.
    fn prune_cache(&mut self, held: &Vec<usize>)
        requires
            old(self).inv(),
        ensures
            final(self).inv(),
            final(self).table == old(self).table,
            final(self).images.resident_bytes <= old(self).images.resident_bytes,
            forall|id: ContentId| #[trigger]
                final(self).images.cached(id) == if relied_on(
                    old(self).table.entries@,
                    old(self).table.displayed@,
                    held@,
                    id.0,
                ) {
                    old(self).images.cached(id)
                } else {
                    None
                },
            forall|id: ContentId| #[trigger]
                final(self).images.has_failed(id) == (old(self).images.has_failed(id) && relied_on(
                    old(self).table.entries@,
                    old(self).table.displayed@,
                    held@,
                    id.0,
                )),
            final(self).viewport == old(self).viewport,
            final(self).scale == old(self).scale,
            final(self).requested_scale == old(self).requested_scale,
            final(self).cached == old(self).cached,
            final(self).connected == old(self).connected,
            final(self).status == old(self).status,
    {
        let ids = self.table.ids_in_use(held);
        let mut keep: HashSet<u128> = HashSet::new();
        let mut k: usize = 0;
        while k < ids.len()
            invariant
                k <= ids@.len(),
                forall|id: u128| #[trigger]
                    keep@.contains(id) <==> ids@.take(k as int).contains(ContentId(id)),
            decreases ids@.len() - k,
        {
            let one = ids[k];
            let ghost before = keep@;
            let ghost seen = ids@.take(k as int);
            let ghost now = ids@.take(k + 1);
            keep.insert(one.0);
            assert forall|id: u128| #[trigger] keep@.contains(id) <==> now.contains(
                ContentId(id),
            ) by {
                assert(before.contains(id) <==> seen.contains(ContentId(id)));
                assert(now[k as int] == one);
                if seen.contains(ContentId(id)) {
                    let j = choose|j: int| 0 <= j < seen.len() && seen[j] == ContentId(id);
                    assert(now[j] == ContentId(id));
                }
                if now.contains(ContentId(id)) && id != one.0 {
                    let j = choose|j: int| 0 <= j < now.len() && now[j] == ContentId(id);
                    assert(seen[j] == ContentId(id));
                }
            }
            k = k + 1;
        }
        assert(ids@.take(k as int) =~= ids@);
        assert forall|id: u128| #[trigger] keep@.contains(id) <==> relied_on(
            self.table.entries@,
            self.table.displayed@,
            held@,
            id,
        ) by {
            lemma_relied_on(&self.table, held@, held@.len(), id);
            assert(held@.take(held@.len() as int) =~= held@);
        }
        self.images.retain_held(&keep);
    }

    /// Applies a coalesced batch of decoded frames, and returns what it means
    /// to the view.
    ///
    /// `Pages` messages are *deltas, not snapshots*: the table is the
    /// accumulated result of all of them, so none may be dropped. Images are
    /// *self-contained*: the last one for an id determines what is drawn.
    pub fn apply_batch(&mut self, batch: &Vec<Decoded>) -> (events: Vec<SessionEvent>)
        requires
            old(self).inv(),
            old(self).images.resident_bytes + batch_bytes(batch@) <= usize::MAX,
        ensures
            final(self).inv(),
            final(self).contents() == settled(
                after_frames(old(self).contents(), batch@),
                old(self).held_for(after_frames(old(self).contents(), batch@).entries.len()),
            ),
            batch_events(events@, old(self).contents(), batch@),
            final(self).viewport == old(self).viewport,
            final(self).scale == old(self).scale,
            final(self).requested_scale == old(self).requested_scale,
            final(self).cached == old(self).cached,
            final(self).connected == old(self).connected,
            final(self).status == old(self).status,
    {
        let ghost start = *self;
        let ghost contents = self.contents();
        let mut changed_pages = new_list();
        let mut events: Vec<SessionEvent> = Vec::new();
        let mut n: usize = 0;
        assert(batch@.take(0) =~= Seq::<Decoded>::empty());
        while n < batch.len()
            invariant
                n <= batch@.len(),
                contents == start.contents(),
                self.inv(),
                self.viewport == start.viewport,
                self.scale == start.scale,
                self.requested_scale == start.requested_scale,
                self.cached == start.cached,
                self.connected == start.connected,
                self.status == start.status,
                self.contents() == after_frames(contents, batch@.take(n as int)),
                self.images.resident_bytes <= start.images.resident_bytes + batch_bytes(
                    batch@.take(n as int),
                ),
                start.images.resident_bytes + batch_bytes(batch@) <= usize::MAX,
                listed(changed_pages) == changed_by(contents, batch@.take(n as int)),
                events@.len() == page_frames(batch@, n as nat).len(),
                forall|k: int|
                    0 <= k < events@.len() ==> (
                    #[trigger] events@[k] matches SessionEvent::TableChanged(delta)
                        && describes_change(
                        delta,
                        after_frames(
                            contents,
                            batch@.take(page_frames(batch@, n as nat)[k]),
                        ).entries,
                        batch@[page_frames(batch@, n as nat)[k]],
                    )),
            decreases batch@.len() - n,
        {
            let ghost before = *self;
            let ghost sofar = batch@.take(n as int);
            let ghost now = batch@.take(n + 1);
            let ghost frames = page_frames(batch@, n as nat);
            let ghost events_before = events@;
            proof {
                assert(now.drop_last() =~= sofar);
                assert(now.last() == batch@[n as int]);
                lemma_batch_bytes(batch@, n + 1);
            }
            match &batch[n] {
                Decoded::Pages { total, full, entries } => {
                    let delta = self.table.apply(*total, *full, entries.as_slice());
                    events.push(SessionEvent::TableChanged(delta));
                    assert(self.contents() =~= after_frames(contents, now));
                    assert(listed(changed_pages) =~= changed_by(contents, now));
                    assert(page_frames(batch@, (n + 1) as nat) == frames.push(n as int));
                },
                Decoded::Image { content, image, rendered_scale } => {
                    proof {
                        lemma_image_bytes(batch@[n as int]);
                    }
                    self.images.insert(*content, image.clone(), *rendered_scale);
                    self.note_indices_for(*content, &mut changed_pages);
                    proof {
                        let next = after_frames(contents, now);
                        assert(self.contents().images =~= next.images) by {
                            assert forall|id: u128| true implies (
                            #[trigger] self.contents().images.contains_key(id)
                                <==> next.images.contains_key(id)) && (next.images.contains_key(id)
                                ==> self.contents().images[id] == next.images[id]) by {
                                if id != content.0 {
                                    assert(self.images.cached(ContentId(id))
                                        == before.images.cached(ContentId(id)));
                                    assert(before.contents().images.contains_key(id)
                                        <==> before.images.cached(ContentId(id)) is Some);
                                }
                            }
                        }
                        assert(self.contents().failures =~= next.failures) by {
                            assert forall|id: u128| true implies (
                            #[trigger] self.contents().failures.contains(id)
                                <==> next.failures.contains(id)) by {
                                if id != content.0 {
                                    assert(self.images.has_failed(ContentId(id))
                                        == before.images.has_failed(ContentId(id)));
                                    assert(before.contents().failures.contains(id)
                                        <==> before.images.has_failed(ContentId(id)));
                                }
                            }
                        }
                        assert(self.contents() =~= next);
                    }
                },
                Decoded::Failed { content, msg } => {
                    self.images.mark_failed(*content);
                    self.note_indices_for(*content, &mut changed_pages);
                    proof {
                        let next = after_frames(contents, now);
                        assert(self.contents().images =~= next.images) by {
                            assert forall|id: u128| true implies (
                            #[trigger] self.contents().images.contains_key(id)
                                <==> next.images.contains_key(id)) && (next.images.contains_key(id)
                                ==> self.contents().images[id] == next.images[id]) by {
                                if id != content.0 {
                                    assert(self.images.cached(ContentId(id))
                                        == before.images.cached(ContentId(id)));
                                    assert(before.contents().images.contains_key(id)
                                        <==> before.images.cached(ContentId(id)) is Some);
                                }
                            }
                        }
                        assert(self.contents().failures =~= next.failures) by {
                            assert forall|id: u128| true implies (
                            #[trigger] self.contents().failures.contains(id)
                                <==> next.failures.contains(id)) by {
                                if id != content.0 {
                                    assert(self.images.has_failed(ContentId(id))
                                        == before.images.has_failed(ContentId(id)));
                                    assert(before.contents().failures.contains(id)
                                        <==> before.images.has_failed(ContentId(id)));
                                }
                            }
                        }
                        assert(self.contents() =~= next);
                    }
                },
            }
            proof {
                let later = page_frames(batch@, (n + 1) as nat);
                assert forall|k: int| 0 <= k < events@.len() implies (
                #[trigger] events@[k] matches SessionEvent::TableChanged(delta)
                    && describes_change(
                    delta,
                    after_frames(contents, batch@.take(later[k])).entries,
                    batch@[later[k]],
                )) by {
                    if k < events_before.len() {
                        assert(events@[k] == events_before[k]);
                        assert(later[k] == frames[k]);
                    }
                }
            }
            n = n + 1;
        }
        assert(batch@.take(n as int) =~= batch@);
        let ghost applied_all = self.contents();
        let held = self.held_indices();
        self.record_displayed(&held);
        let ghost recorded = *self;
        self.prune_cache(&held);
        proof {
            let goal = settled(applied_all, held@);
            assert(recorded.table.displayed@ == goal.displayed);
            assert(self.contents().images =~= goal.images) by {
                assert forall|id: u128| true implies (
                #[trigger] self.contents().images.contains_key(id) <==> goal.images.contains_key(
                    id,
                )) && (goal.images.contains_key(id) ==> self.contents().images[id]
                    == goal.images[id]) by {
                    assert(self.images.cached(ContentId(id)) == if relied_on(
                        recorded.table.entries@,
                        recorded.table.displayed@,
                        held@,
                        id,
                    ) {
                        recorded.images.cached(ContentId(id))
                    } else {
                        None
                    });
                }
            }
            assert(self.contents().failures =~= goal.failures) by {
                assert forall|id: u128| true implies (
                #[trigger] self.contents().failures.contains(id) <==> goal.failures.contains(
                    id,
                )) by {
                    assert(self.images.has_failed(ContentId(id)) == (recorded.images.has_failed(
                        ContentId(id),
                    ) && relied_on(
                        recorded.table.entries@,
                        recorded.table.displayed@,
                        held@,
                        id,
                    )));
                }
            }
            assert(self.contents() =~= goal);
        }
        let ghost table_only = events@;
        if changed_pages.as_slice().len() > 0 {
            events.push(SessionEvent::PagesChanged(changed_pages));
            assert(events@.drop_last() =~= table_only);
        }
        events
    }
}

/// Decodes the image of a parsed frame.
pub fn decode_image(frame: &[u8], header: &ImageHeader, rendered_scale: u32) -> (r: Result<
    Decoded,
    DecodeError,
>)
    requires
        header.payload.start <= header.payload.end <= frame@.len(),
    ensures
        ({
            let payload = frame@.subrange(
                header.payload.start as int,
                header.payload.end as int,
            );
            let pixels = payload_pixels(
                payload,
                header.px_width,
                header.px_height,
                header.encoding,
            );
            let decodes = pixels is Some && header.px_width * header.px_height * 4 <= (
            pixels->0).len();
            match r {
                Ok(decoded) => {
                    &&& decodes
                    &&& decoded matches Decoded::Image { content, image, rendered_scale: scale }
                    &&& content == header.content
                    &&& scale == rendered_scale
                    &&& image.width == header.px_width
                    &&& image.height == header.px_height
                    &&& image.scale_factor == rendered_scale
                    &&& image.pixels@ == swapped(pixels->0)
                },
                Err(_) => !decodes,
            }
        }),
{
    let payload = vstd::slice::slice_subrange(frame, header.payload.start, header.payload.end);
    match decode_page(
        payload,
        header.px_width,
        header.px_height,
        header.encoding,
        rendered_scale,
    ) {
        Ok(image) => Ok(
            Decoded::Image { content: header.content, image: Arc::new(image), rendered_scale },
        ),
        Err(error) => Err(error),
    }
}

/// Whether a server is the one that renders previews.
pub open spec fn is_tinymist(server: (u64, String)) -> bool {
    server.1@ == TINYMIST_SERVER_NAME@
}

/// The numbers of the servers among the first `n` that render previews.
pub open spec fn tinymist_servers(servers: Seq<(u64, String)>, n: nat) -> Seq<u64>
    decreases n,
{
    if n == 0 {
        Seq::empty()
    } else {
        let before = tinymist_servers(servers, (n - 1) as nat);
        if is_tinymist(servers[n - 1]) {
            before.push(servers[n - 1].0)
        } else {
            before
        }
    }
}

/// The server to render with: the one that serves the buffer, or else the only
/// one that is running.
pub fn find_tinymist_server(for_buffer: Option<u64>, servers: &Vec<(u64, String)>) -> (r: Option<u64>)
    ensures
        r == match for_buffer {
            Some(id) => Some(id),
            None => {
                let found = tinymist_servers(servers@, servers@.len());
                if found.len() == 1 {
                    Some(found[0])
                } else {
                    None
                }
            },
        },
{
    if let Some(id) = for_buffer {
        return Some(id);
    }
    let mut found: Vec<u64> = Vec::new();
    let mut n: usize = 0;
    while n < servers.len()
        invariant
            n <= servers@.len(),
            found@ == tinymist_servers(servers@, n as nat),
        decreases servers@.len() - n,
    {
        if str_eq(servers[n].1.as_str(), TINYMIST_SERVER_NAME) {
            found.push(servers[n].0);
        }
        n = n + 1;
    }
    if found.len() == 1 {
        Some(found[0])
    } else {
        None
    }
}

/// Notes that a server's notifications are handled, and tells whether they were
/// not before.
pub fn register_tinymist_notifications(registered: &mut HashSet<u64>, server_id: u64) -> (r: bool)
    ensures
        final(registered)@ == old(registered)@.insert(server_id),
        r == !old(registered)@.contains(server_id),
{
    registered.insert(server_id)
}

/// The arguments of the request to start a preview. The file path doubles as
/// the task id, so each file gets its own preview and can be killed
/// independently. The first argument makes the protocol available: without it
/// the server refuses the upgrade.
pub fn preview_args(entry: &str) -> (args: Vec<String>)
    ensures
        args@.len() == 4,
        args@[0]@ == "--page-images=true"@,
        args@[1]@ == "--data-plane-host=127.0.0.1:0"@,
        args@[2]@ == "--task-id="@ + entry@,
        args@[3]@ == entry@,
{
    let mut task = "--task-id=".to_owned();
    task.append(entry);
    let mut args: Vec<String> = Vec::new();
    args.push("--page-images=true".to_owned());
    args.push("--data-plane-host=127.0.0.1:0".to_owned());
    args.push(task);
    args.push(entry.to_owned());
    args
}

/// How a connection attempt ended.
#[derive(Clone, Copy, Debug, PartialEq, Eq, Structural)]
pub enum AttemptOutcome {
    /// The connection was made and has ended.
    Ended,
    /// The server does not speak the protocol.
    Unsupported,
    /// Anything else went wrong.
    Failed,
}

/// What to do after a connection attempt.
#[derive(Clone, Copy, Debug, PartialEq, Eq, Structural)]
pub enum AttemptStep {
    Finish,
    /// Report the error.
    GiveUp,
    /// Try again after this many milliseconds.
    RetryAfter(u64),
}

/// What follows the attempt of a number, counted from one. The server may
/// dispose a preview right after starting it, so a few attempts are made; but
/// it will not grow support for the protocol between attempts.
pub fn after_attempt(attempt: u32, outcome: AttemptOutcome) -> (step: AttemptStep)
    ensures
        step == match outcome {
            AttemptOutcome::Ended => AttemptStep::Finish,
            AttemptOutcome::Unsupported => AttemptStep::GiveUp,
            AttemptOutcome::Failed => if attempt >= MAX_ATTEMPTS {
                AttemptStep::GiveUp
            } else {
                AttemptStep::RetryAfter(RETRY_DELAY)
            },
        },
{
    match outcome {
        AttemptOutcome::Ended => AttemptStep::Finish,
        AttemptOutcome::Unsupported => AttemptStep::GiveUp,
        AttemptOutcome::Failed => if attempt >= MAX_ATTEMPTS {
            AttemptStep::GiveUp
        } else {
            AttemptStep::RetryAfter(RETRY_DELAY)
        },
    }
}

/// The answer to a WebSocket upgrade.
#[derive(Debug)]
pub enum Upgrade {
    /// Accepted, with the subprotocol that the server names.
    Accepted(Option<String>),
    /// Refused with an HTTP status.
    Refused(u16),
    /// No answer that could be read.
    Broken,
}

/// Whether an upgrade leads to a connection that speaks the protocol. A client
/// error, and an accepted upgrade that does not name the subprotocol, mean that
/// the server does not support it.
pub fn negotiated(upgrade: &Upgrade) -> (outcome: Result<(), AttemptOutcome>)
    ensures
        match upgrade {
            Upgrade::Accepted(agreed) => if agreed matches Some(name) && name@ == SUBPROTOCOL@ {
                outcome is Ok
            } else {
                outcome == Err::<(), _>(AttemptOutcome::Unsupported)
            },
            Upgrade::Refused(status) => outcome == Err::<(), _>(
                if 400 <= *status < 500 {
                    AttemptOutcome::Unsupported
                } else {
                    AttemptOutcome::Failed
                },
            ),
            Upgrade::Broken => outcome == Err::<(), _>(AttemptOutcome::Failed),
        },
{
    match upgrade {
        Upgrade::Accepted(agreed) => {
            let matches = match agreed {
                Some(name) => str_eq(name.as_str(), SUBPROTOCOL),
                None => false,
            };
            if matches {
                Ok(())
            } else {
                Err(AttemptOutcome::Unsupported)
            }
        },
        Upgrade::Refused(status) => if 400 <= *status && *status < 500 {
            Err(AttemptOutcome::Unsupported)
        } else {
            Err(AttemptOutcome::Failed)
        },
        Upgrade::Broken => Err(AttemptOutcome::Failed),
    }
}

/// What arrives on the connection.
#[derive(Clone, Copy, Debug, PartialEq, Eq, Structural)]
pub enum Inbound {
    /// A text or binary message of this many bytes.
    Message(usize),
    /// A close message, or an error.
    Closed,
    /// Anything else.
    Other,
}

/// What to do with what arrived.
#[derive(Clone, Copy, Debug, PartialEq, Eq, Structural)]
pub enum ReadStep {
    Decode,
    Skip,
    Stop,
}

/// Messages are decoded, unless they are too large; an end of the connection
/// stops reading; anything else is skipped.
pub fn read_step(inbound: Inbound) -> (step: ReadStep)
    ensures
        step == match inbound {
            Inbound::Message(len) => if len > MAX_FRAME_BYTES {
                ReadStep::Stop
            } else {
                ReadStep::Decode
            },
            Inbound::Closed => ReadStep::Stop,
            Inbound::Other => ReadStep::Skip,
        },
{
    match inbound {
        Inbound::Message(len) => if len > MAX_FRAME_BYTES {
            ReadStep::Stop
        } else {
            ReadStep::Decode
        },
        Inbound::Closed => ReadStep::Stop,
        Inbound::Other => ReadStep::Skip,
    }
}

/// The indices of a range are those in it that a table has, one after another.
pub proof fn law_indices_of_range(range: Range<usize>, len: nat, i: usize)
    ensures
        indices_in(range, len).contains(i) <==> range.start <= i < range.end && i < len,
        forall|k: int|
            0 <= k < indices_in(range, len).len() ==> #[trigger] indices_in(range, len)[k]
                == range.start + k,
{
    let indices = indices_in(range, len);
    if range.start <= i < range.end && i < len {
        assert(indices[i - range.start] == i);
    }
}

/// What lies beyond a table is left out, and nothing else.
pub proof fn law_only_what_is_beyond_leaves(indices: Seq<usize>, len: nat)
    ensures
        below(indices, len) == indices.filter(|i: usize| i < len),
    decreases indices.len(),
{
    reveal(Seq::filter);
    if indices.len() > 0 {
        law_only_what_is_beyond_leaves(indices.drop_last(), len);
    }
}

/// What is in another list is left out, and nothing else.
pub proof fn law_only_what_is_listed_leaves(indices: Seq<usize>, other: Seq<usize>)
    ensures
        without(indices, other) == indices.filter(|i: usize| !other.contains(i)),
    decreases indices.len(),
{
    reveal(Seq::filter);
    if indices.len() > 0 {
        law_only_what_is_listed_leaves(indices.drop_last(), other);
    }
}

/// What comes first is held first: more indices behind a list displace nothing of what
/// is held of it.
pub proof fn law_first_are_held_first(first: Seq<usize>, more: Seq<usize>)
    ensures
        first_held(first + more).len() >= first_held(first).len(),
        first_held(first + more).take(first_held(first).len() as int) == first_held(first),
    decreases more.len(),
{
    if more.len() == 0 {
        assert(first + more =~= first);
        assert(first_held(first).take(first_held(first).len() as int) =~= first_held(first));
    } else {
        law_first_are_held_first(first, more.drop_last());
        assert((first + more).drop_last() =~= first + more.drop_last());
        let shorter = first_held(first + more.drop_last());
        assert(shorter.push(more.last()).take(first_held(first).len() as int) =~= shorter.take(
            first_held(first).len() as int,
        ));
    }
}

/// While there is room, everything is held.
pub proof fn law_everything_is_held_while_there_is_room(indices: Seq<usize>, i: usize)
    requires
        indices.contains(i),
        first_held(indices).len() < MAX_HELD,
    ensures
        first_held(indices).contains(i),
    decreases indices.len(),
{
    let earlier = indices.drop_last();
    let before = first_held(earlier);
    let held = first_held(indices);
    if indices.last() == i {
        if before.contains(i) {
        } else {
            assert(held[held.len() - 1] == i);
        }
    } else {
        let k = choose|k: int| 0 <= k < indices.len() && indices[k] == i;
        assert(earlier[k] == i);
        law_everything_is_held_while_there_is_room(earlier, i);
        let j = choose|j: int| 0 <= j < before.len() && before[j] == i;
        assert(held[j] == i);
    }
}

/// Indices that differ are all held, in their order, where they are few enough.
pub proof fn law_few_are_all_held(indices: Seq<usize>)
    requires
        indices.no_duplicates(),
        indices.len() <= MAX_HELD,
    ensures
        first_held(indices) == indices,
    decreases indices.len(),
{
    if indices.len() > 0 {
        let earlier = indices.drop_last();
        law_few_are_all_held(earlier);
        if earlier.contains(indices.last()) {
            let k = choose|k: int| 0 <= k < earlier.len() && earlier[k] == indices.last();
            assert(indices[k] == indices[indices.len() - 1]);
        }
        assert(earlier.push(indices.last()) =~= indices);
    }
}

/// Every visible page is held, whatever else is asked for, unless more are visible
/// than can be held.
pub proof fn law_visible_pages_are_held(session: PreviewSession, len: nat, i: usize)
    requires
        session.viewport.visible.end - session.viewport.visible.start <= MAX_HELD,
        session.viewport.visible.start <= i < session.viewport.visible.end,
        i < len,
    ensures
        session.held_for(len).contains(i),
{
    let visible = indices_in(session.viewport.visible, len);
    let around = indices_in(session.viewport.prefetch, len);
    let before = below(session.cached@, len);
    law_indices_of_range(session.viewport.visible, len, i);
    law_few_are_all_held(visible);
    law_first_are_held_first(visible, around + before);
    assert(visible + (around + before) =~= visible + around + before);
    let k = choose|k: int| 0 <= k < visible.len() && visible[k] == i;
    let held = session.held_for(len);
    assert(held.take(visible.len() as int)[k] == i);
    assert(held[k] == i);
}

/// The positions of a content id are those at which the table has it, in order.
pub proof fn law_positions_of_content(entries: Seq<PageTableEntry>, content: ContentId, n: nat)
    requires
        n <= entries.len(),
        n <= usize::MAX,
    ensures
        ({
            let found = indices_of(entries, content, n);
            &&& forall|i: int|
                0 <= i < n ==> (found.contains(i as usize) <==> (#[trigger] entries[i]).content
                    == Some(content))
            &&& forall|k: int| 0 <= k < found.len() ==> #[trigger] found[k] < n
            &&& forall|k: int, l: int|
                0 <= k < l < found.len() ==> #[trigger] found[k] < #[trigger] found[l]
        }),
    decreases n,
{
    if n > 0 {
        law_positions_of_content(entries, content, (n - 1) as nat);
        let before = indices_of(entries, content, (n - 1) as nat);
        let found = indices_of(entries, content, n);
        assert forall|i: int| 0 <= i < n implies (found.contains(i as usize) <==> (
        #[trigger] entries[i]).content == Some(content)) by {
            if i < n - 1 {
                if before.contains(i as usize) {
                    let k = choose|k: int| 0 <= k < before.len() && before[k] == i as usize;
                    assert(found[k] == i as usize);
                } else if found.contains(i as usize) {
                    let k = choose|k: int| 0 <= k < found.len() && found[k] == i as usize;
                    assert(before[k] == i as usize);
                }
            } else if found.len() > before.len() {
                assert(found[found.len() - 1] == i as usize);
            }
        }
    }
}

/// An image or a failure concerns its content alone and leaves the table as it is, and
/// a table leaves the images as they are.
pub proof fn law_frames_change_their_part(contents: Contents, frame: Decoded, other: u128)
    ensures
        frame is Pages ==> after_frame(contents, frame).images == contents.images && after_frame(
            contents,
            frame,
        ).failures == contents.failures,
        !(frame is Pages) ==> after_frame(contents, frame).entries == contents.entries
            && after_frame(contents, frame).displayed == contents.displayed,
        frame matches Decoded::Image { content, image, rendered_scale } ==> {
            let after = after_frame(contents, frame);
            &&& after.images.contains_key(content.0)
            &&& after.images[content.0].image == image
            &&& after.images[content.0].rendered_scale == rendered_scale
            &&& other != content.0 ==> after.images.contains_key(other)
                == contents.images.contains_key(other) && after.failures.contains(other)
                == contents.failures.contains(other)
        },
        frame matches Decoded::Failed { content, .. } ==> {
            let after = after_frame(contents, frame);
            &&& !after.images.contains_key(content.0)
            &&& after.failures.contains(content.0)
            &&& other != content.0 ==> after.images.contains_key(other)
                == contents.images.contains_key(other) && after.failures.contains(other)
                == contents.failures.contains(other)
        },
{
}

/// An image or a failure changes every page that has its content, and nothing that
/// changed before is forgotten; a table changes no page by itself.
pub proof fn law_changed_pages(contents: Contents, batch: Seq<Decoded>, frame: Decoded, i: int)
    requires
        0 <= i < after_frames(contents, batch).entries.len() <= usize::MAX,
    ensures
        frame is Pages ==> changed_by(contents, batch.push(frame)) == changed_by(contents, batch),
        frame matches Decoded::Image { content, .. } ==> (after_frames(
            contents,
            batch,
        ).entries[i].content == Some(content) ==> changed_by(
            contents,
            batch.push(frame),
        ).contains(i as usize)),
        frame matches Decoded::Failed { content, .. } ==> (after_frames(
            contents,
            batch,
        ).entries[i].content == Some(content) ==> changed_by(
            contents,
            batch.push(frame),
        ).contains(i as usize)),
        changed_by(contents, batch).contains(i as usize) ==> changed_by(
            contents,
            batch.push(frame),
        ).contains(i as usize),
{
    assert(batch.push(frame).drop_last() =~= batch);
    let entries = after_frames(contents, batch).entries;
    let before = changed_by(contents, batch);
    let after = changed_by(contents, batch.push(frame));
    if before.contains(i as usize) {
        let k = choose|k: int| 0 <= k < before.len() && before[k] == i as usize;
        assert(after[k] == i as usize);
    }
    let content = match frame {
        Decoded::Image { content, .. } => Some(content),
        Decoded::Failed { content, .. } => Some(content),
        Decoded::Pages { .. } => None,
    };
    if let Some(content) = content {
        law_positions_of_content(entries, content, entries.len());
        let more = indices_of(entries, content, entries.len());
        assert(after == before + more);
        if entries[i].content == Some(content) {
            let k = choose|k: int| 0 <= k < more.len() && more[k] == i as usize;
            assert(after[before.len() + k] == i as usize);
        }
    } else {
        assert(before + Seq::<usize>::empty() =~= before);
    }
}

/// Each `pages` frame of a batch is counted, in order, and no other frame.
pub proof fn law_pages_frames_are_counted(batch: Seq<Decoded>, n: nat)
    requires
        n <= batch.len(),
    ensures
        ({
            let found = page_frames(batch, n);
            &&& forall|i: int| 0 <= i < n ==> (found.contains(i) <==> #[trigger] batch[i] is Pages)
            &&& forall|k: int| 0 <= k < found.len() ==> 0 <= #[trigger] found[k] < n
            &&& forall|k: int, l: int|
                0 <= k < l < found.len() ==> #[trigger] found[k] < #[trigger] found[l]
        }),
        pages_of(batch) == batch.filter(|frame: Decoded| frame is Pages),
    decreases n,
{
    lemma_pages_of(batch);
    if n > 0 {
        law_pages_frames_are_counted(batch, (n - 1) as nat);
        let before = page_frames(batch, (n - 1) as nat);
        let found = page_frames(batch, n);
        assert forall|i: int| 0 <= i < n implies (found.contains(i)
            <==> #[trigger] batch[i] is Pages) by {
            if i < n - 1 {
                if before.contains(i) {
                    let k = choose|k: int| 0 <= k < before.len() && before[k] == i;
                    assert(found[k] == i);
                } else if found.contains(i) {
                    let k = choose|k: int| 0 <= k < found.len() && found[k] == i;
                    assert(before[k] == i);
                }
            } else if found.len() > before.len() {
                assert(found[found.len() - 1] == i);
            }
        }
    }
}

proof fn lemma_pages_of(batch: Seq<Decoded>)
    ensures
        pages_of(batch) == batch.filter(|frame: Decoded| frame is Pages),
    decreases batch.len(),
{
    reveal(Seq::filter);
    if batch.len() > 0 {
        lemma_pages_of(batch.drop_last());
    }
}

/// A held page whose image is there is noted as shown; every other page keeps what it
/// showed before.
pub proof fn law_what_is_shown_is_noted(contents: Contents, held: Seq<usize>, i: int)
    requires
        0 <= i < contents.displayed.len(),
        contents.displayed.len() == contents.entries.len() <= usize::MAX,
    ensures
        noted(contents, held).len() == contents.displayed.len(),
        held.contains(i as usize) ==> (contents.entries[i].content matches Some(id) ==> (
        contents.images.contains_key(id.0) ==> noted(contents, held)[i] == Some(id))),
        !held.contains(i as usize) ==> noted(contents, held)[i] == contents.displayed[i],
        contents.entries[i].content is None ==> noted(contents, held)[i] == contents.displayed[i],
        contents.entries[i].content matches Some(id) ==> (!contents.images.contains_key(id.0)
            ==> noted(contents, held)[i] == contents.displayed[i]),
{
    if held.contains(i as usize) {
        let k = choose|k: int| 0 <= k < held.len() && held[k] == i as usize;
        assert(held[k] == i);
    }
}

/// The servers that render previews are those with their name, in order.
pub proof fn law_servers_by_name(servers: Seq<(u64, String)>, n: nat)
    requires
        n <= servers.len(),
    ensures
        tinymist_servers(servers, n) == servers.take(n as int).filter(
            |server: (u64, String)| server.1@ == TINYMIST_SERVER_NAME@,
        ).map_values(|server: (u64, String)| server.0),
    decreases n,
{
    reveal(Seq::filter);
    let named = |server: (u64, String)| server.1@ == TINYMIST_SERVER_NAME@;
    let number = |server: (u64, String)| server.0;
    if n > 0 {
        law_servers_by_name(servers, (n - 1) as nat);
        assert(servers.take(n as int).drop_last() =~= servers.take(n - 1));
        let before = servers.take(n - 1).filter(named);
        if named(servers[n - 1]) {
            assert(before.push(servers[n - 1]).map_values(number) =~= before.map_values(
                number,
            ).push(servers[n - 1].0));
        }
    } else {
        assert(servers.take(0).filter(named).map_values(number) =~= Seq::empty());
    }
}

} // verus!
