//! The cache of decoded pages, and what to draw at an index of the table.
use crate::typst_viewer::decode::RenderImage;
use crate::typst_viewer::page_table::PageTable;
use crate::typst_viewer::protocol::ContentId;
use crate::typst_viewer::scale::{numbers_equal, same_number};
use std::collections::HashSet;
use std::sync::Arc;
use vstd::prelude::*;
use vstd::std_specs::hash::*;

verus! {

broadcast use vstd::std_specs::hash::group_hash_axioms;

/// A decoded page, plus the scale it was rendered at.
#[derive(Debug)]
pub struct CachedImage {
    pub content: ContentId,
    pub image: Arc<RenderImage>,
    /// Taken from the image header, never inferred. This is what makes the
    /// in-flight case correct: an image requested before a zoom can arrive
    /// after it.
    pub rendered_scale: u32,
    pub bytes: usize,
}

/// What we can draw for a given index.
#[derive(Debug)]
pub enum PageImage {
    /// Correct content at the current scale.
    Current(Arc<RenderImage>),
    /// Correct content at the wrong scale — draw it stretched while the
    /// replacement renders.
    Stale(Arc<RenderImage>),
    /// The server said this content will not render.
    Failed,
    /// Nothing yet; draw a placeholder box.
    Missing,
}

/// Content id -> decoded page.
///
/// **Scale is metadata on the entry, not part of the key.** The connection only
/// ever renders at one scale, so entries at other scales could never be served,
/// only retained. Overwrite-on-arrival is also what bounds this cache without
/// an eviction rule of its own.
pub struct ImageCache {
    pub entries: Vec<CachedImage>,
    pub failed: Vec<ContentId>,
    pub resident_bytes: usize,
}

/// The number of bytes that an image takes.
pub open spec fn image_bytes(image: RenderImage) -> int {
    image.width * image.height * 4
}

/// The number of bytes that images take together.
pub open spec fn total_bytes(entries: Seq<CachedImage>) -> int
    decreases entries.len(),
{
    if entries.len() == 0 {
        0
    } else {
        total_bytes(entries.drop_last()) + entries.last().bytes
    }
}

/// The first entry from `k` on for an id.
pub open spec fn entry_from(entries: Seq<CachedImage>, id: ContentId, k: int) -> Option<int>
    decreases entries.len() - k,
{
    if k >= entries.len() {
        None
    } else if entries[k].content == id {
        Some(k)
    } else {
        entry_from(entries, id, k + 1)
    }
}

/// No id has two entries.
pub open spec fn one_entry_per_id(entries: Seq<CachedImage>) -> bool {
    forall|i: int, j: int|
        0 <= i < j < entries.len() ==> (#[trigger] entries[i]).content != (
        #[trigger] entries[j]).content
}

/// The entry for an id.
pub open spec fn entry_of(entries: Seq<CachedImage>, id: ContentId) -> Option<CachedImage> {
    match entry_from(entries, id, 0) {
        Some(k) => Some(entries[k]),
        None => None,
    }
}

proof fn lemma_entry_from(entries: Seq<CachedImage>, id: ContentId, k: int)
    requires
        0 <= k,
    ensures
        match entry_from(entries, id, k) {
            Some(j) => k <= j < entries.len() && entries[j].content == id,
            None => forall|j: int|
                k <= j < entries.len() ==> (#[trigger] entries[j]).content != id,
        },
    decreases entries.len() - k,
{
    if k < entries.len() {
        lemma_entry_from(entries, id, k + 1);
    }
}

/// Where each id has one entry, that entry is the one found.
proof fn lemma_entry_of(entries: Seq<CachedImage>, j: int)
    requires
        one_entry_per_id(entries),
        0 <= j < entries.len(),
    ensures
        entry_of(entries, entries[j].content) == Some(entries[j]),
{
    let id = entries[j].content;
    lemma_entry_from(entries, id, 0);
    let k = entry_from(entries, id, 0)->0;
    if k < j {
        assert(entries[k].content != entries[j].content);
    } else if j < k {
        assert(entries[j].content != entries[k].content);
    }
}

/// Without an entry for an id, none is found.
proof fn lemma_no_entry(entries: Seq<CachedImage>, id: ContentId)
    requires
        forall|j: int| 0 <= j < entries.len() ==> (#[trigger] entries[j]).content != id,
    ensures
        entry_of(entries, id) is None,
{
    lemma_entry_from(entries, id, 0);
}

/// Taking an entry out leaves the others.
proof fn lemma_remove(entries: Seq<CachedImage>, k: int)
    requires
        one_entry_per_id(entries),
        0 <= k < entries.len(),
    ensures
        one_entry_per_id(entries.remove(k)),
        entry_of(entries.remove(k), entries[k].content) is None,
        forall|id: ContentId|
            id != entries[k].content ==> #[trigger] entry_of(entries.remove(k), id) == entry_of(
                entries,
                id,
            ),
        total_bytes(entries.remove(k)) == total_bytes(entries) - entries[k].bytes,
{
    let rest = entries.remove(k);
    assert forall|i: int, j: int| 0 <= i < j < rest.len() implies (#[trigger] rest[i]).content != (
    #[trigger] rest[j]).content by {
        let a = if i < k {
            i
        } else {
            i + 1
        };
        let b = if j < k {
            j
        } else {
            j + 1
        };
        assert(rest[i] == entries[a] && rest[j] == entries[b]);
    }
    assert forall|j: int| 0 <= j < rest.len() implies (#[trigger] rest[j]).content
        != entries[k].content by {
        if j < k {
            assert(rest[j] == entries[j]);
            assert(entries[j].content != entries[k].content);
        } else {
            assert(rest[j] == entries[j + 1]);
            assert(entries[k].content != entries[j + 1].content);
        }
    }
    lemma_no_entry(rest, entries[k].content);
    assert forall|id: ContentId| id != entries[k].content implies #[trigger] entry_of(rest, id)
        == entry_of(entries, id) by {
        lemma_entry_from(entries, id, 0);
        match entry_from(entries, id, 0) {
            Some(j) => {
                let at = if j < k {
                    j
                } else {
                    j - 1
                };
                assert(rest[at] == entries[j]);
                lemma_entry_of(rest, at);
            },
            None => {
                assert forall|j: int| 0 <= j < rest.len() implies (#[trigger] rest[j]).content
                    != id by {
                    let at = if j < k {
                        j
                    } else {
                        j + 1
                    };
                    assert(rest[j] == entries[at]);
                }
                lemma_no_entry(rest, id);
            },
        }
    }
    lemma_total_remove(entries, k);
}

proof fn lemma_total_remove(entries: Seq<CachedImage>, k: int)
    requires
        0 <= k < entries.len(),
    ensures
        total_bytes(entries.remove(k)) == total_bytes(entries) - entries[k].bytes,
    decreases entries.len(),
{
    let rest = entries.remove(k);
    if k == entries.len() - 1 {
        assert(rest =~= entries.drop_last());
    } else {
        lemma_total_remove(entries.drop_last(), k);
        assert(rest.drop_last() =~= entries.drop_last().remove(k));
        assert(rest.last() == entries.last());
    }
}

/// Adding an entry for a new id leaves the others.
proof fn lemma_push(entries: Seq<CachedImage>, entry: CachedImage)
    requires
        one_entry_per_id(entries),
        entry_of(entries, entry.content) is None,
    ensures
        one_entry_per_id(entries.push(entry)),
        entry_of(entries.push(entry), entry.content) == Some(entry),
        forall|id: ContentId|
            id != entry.content ==> #[trigger] entry_of(entries.push(entry), id) == entry_of(
                entries,
                id,
            ),
        total_bytes(entries.push(entry)) == total_bytes(entries) + entry.bytes,
{
    let more = entries.push(entry);
    lemma_entry_from(entries, entry.content, 0);
    lemma_entry_of(more, entries.len() as int);
    assert forall|id: ContentId| id != entry.content implies #[trigger] entry_of(more, id)
        == entry_of(entries, id) by {
        lemma_entry_from(entries, id, 0);
        match entry_from(entries, id, 0) {
            Some(j) => {
                assert(more[j] == entries[j]);
                lemma_entry_of(more, j);
            },
            None => {
                assert forall|j: int| 0 <= j < more.len() implies (#[trigger] more[j]).content
                    != id by {
                    if j < entries.len() {
                        assert(more[j] == entries[j]);
                    }
                }
                lemma_no_entry(more, id);
            },
        }
    }
    assert(more.drop_last() =~= entries);
}

/// No image takes less than nothing.
proof fn lemma_total_positive(entries: Seq<CachedImage>)
    ensures
        total_bytes(entries) >= 0,
        forall|k: int|
            0 <= k < entries.len() ==> (#[trigger] entries[k]).bytes <= total_bytes(entries),
    decreases entries.len(),
{
    if entries.len() > 0 {
        let shorter = entries.drop_last();
        lemma_total_positive(shorter);
        assert forall|k: int| 0 <= k < entries.len() implies (#[trigger] entries[k]).bytes
            <= total_bytes(entries) by {
            if k < shorter.len() {
                assert(entries[k] == shorter[k]);
            }
        }
    }
}

impl Default for ImageCache {
    fn default() -> (r: Self)
        ensures
            r.inv(),
            forall|id: ContentId| #[trigger] r.cached(id) is None,
            forall|id: ContentId| !#[trigger] r.has_failed(id),
            r.resident_bytes == 0,
    {
        ImageCache { entries: Vec::new(), failed: Vec::new(), resident_bytes: 0 }
    }
}

impl ImageCache {
    /// Each id has at most one entry, and the resident bytes are those of all.
    pub open spec fn inv(&self) -> bool {
        &&& one_entry_per_id(self.entries@)
        &&& self.resident_bytes == total_bytes(self.entries@)
    }

    /// The image held for an id.
    pub open spec fn cached(&self, id: ContentId) -> Option<CachedImage> {
        entry_of(self.entries@, id)
    }

    /// Whether an id is recorded as one that will not render.
    pub open spec fn has_failed(&self, id: ContentId) -> bool {
        self.failed@.contains(id)
    }

    /// The images held, by id.
    pub open spec fn images(&self) -> Map<u128, CachedImage> {
        Map::new(
            |id: u128| self.cached(ContentId(id)) is Some,
            |id: u128| self.cached(ContentId(id))->0,
        )
    }

    /// The ids recorded as ones that will not render.
    pub open spec fn failures(&self) -> Set<u128> {
        Set::new(|id: u128| self.has_failed(ContentId(id)))
    }

    /// Finds the entry for an id.
    fn find(&self, id: ContentId) -> (r: Option<usize>)
        ensures
            match r {
                Some(k) => {
                    &&& entry_from(self.entries@, id, 0) == Some(k as int)
                    &&& k < self.entries@.len()
                    &&& self.entries@[k as int].content == id
                },
                None => entry_from(self.entries@, id, 0) is None,
            },
    {
        let mut k: usize = 0;
        while k < self.entries.len()
            invariant
                k <= self.entries@.len(),
                entry_from(self.entries@, id, 0) == entry_from(self.entries@, id, k as int),
            decreases self.entries@.len() - k,
        {
            if self.entries[k].content.0 == id.0 {
                return Some(k);
            }
            k = k + 1;
        }
        None
    }

    /// Takes out the entry for an id.
    fn remove_entry(&mut self, id: ContentId)
        requires
            old(self).inv(),
        ensures
            final(self).inv(),
            final(self).failed == old(self).failed,
            final(self).cached(id) is None,
            forall|other: ContentId|
                other != id ==> #[trigger] final(self).cached(other) == old(self).cached(other),
            final(self).resident_bytes == old(self).resident_bytes - match old(self).cached(id) {
                Some(entry) => entry.bytes as int,
                None => 0,
            },
    {
        proof {
            lemma_entry_from(self.entries@, id, 0);
        }
        if let Some(k) = self.find(id) {
            proof {
                lemma_remove(self.entries@, k as int);
                lemma_total_positive(self.entries@.remove(k as int));
                lemma_total_positive(self.entries@);
            }
            let removed = self.entries.remove(k);
            self.resident_bytes = self.resident_bytes - removed.bytes;
        }
    }

    /// Forgets that an id failed.
    fn remove_failure(&mut self, id: ContentId)
        ensures
            final(self).entries == old(self).entries,
            final(self).resident_bytes == old(self).resident_bytes,
            forall|other: ContentId| #[trigger]
                final(self).has_failed(other) == (old(self).has_failed(other) && other != id),
    {
        let ghost before = self.failed@;
        let mut kept: Vec<ContentId> = Vec::new();
        let mut k: usize = 0;
        while k < self.failed.len()
            invariant
                k <= before.len(),
                self.failed@ == before,
                forall|other: ContentId| #[trigger]
                    kept@.contains(other) <==> other != id && before.take(k as int).contains(other),
            decreases before.len() - k,
        {
            let one = self.failed[k];
            let ghost earlier = kept@;
            let ghost seen = before.take(k as int);
            assert(before.take(k + 1) =~= seen.push(one));
            if one.0 != id.0 {
                kept.push(one);
            }
            proof {
                assert forall|other: ContentId| #[trigger]
                    kept@.contains(other) <==> other != id && before.take(k + 1).contains(
                    other,
                ) by {
                    lemma_push_contains(seen, one, other);
                    lemma_push_contains(earlier, one, other);
                    assert(earlier.contains(other) <==> other != id && seen.contains(other));
                }
            }
            k = k + 1;
        }
        assert(before.take(k as int) =~= before);
        self.failed = kept;
    }

    /// Holds an image for an id, in place of what was held.
    ///
    /// An arriving image supersedes a recorded failure. A failure is not a
    /// tombstone: a scale change re-renders the same id on the server, which is
    /// exactly how a page too large to rasterize recovers when zoomed out.
    pub fn insert(&mut self, content: ContentId, image: Arc<RenderImage>, rendered_scale: u32)
        requires
            old(self).inv(),
            old(self).resident_bytes + image_bytes(*image) <= usize::MAX,
        ensures
            final(self).inv(),
            final(self).cached(content) == Some(
                (CachedImage {
                    content,
                    image,
                    rendered_scale,
                    bytes: image_bytes(*image) as usize,
                }),
            ),
            !final(self).has_failed(content),
            final(self).resident_bytes <= old(self).resident_bytes + image_bytes(*image),
            forall|other: ContentId|
                other != content ==> #[trigger] final(self).cached(other) == old(self).cached(other),
            forall|other: ContentId|
                other != content ==> #[trigger] final(self).has_failed(other) == old(
                    self).has_failed(other),
    {
        proof {
            lemma_total_positive(self.entries@);
        }
        let width: u64 = image.width as u64;
        let height: u64 = image.height as u64;
        assert(width * height <= 0xffff_ffff * 0xffff_ffff) by (nonlinear_arith)
            requires
                width <= 0xffff_ffff,
                height <= 0xffff_ffff,
        ;
        assert(width * height * 4 == image_bytes(*image));
        let area: u64 = width * height;
        let bytes: usize = area as usize * 4;
        self.remove_entry(content);
        let ghost without = *self;
        self.remove_failure(content);
        let entry = CachedImage { content, image, rendered_scale, bytes };
        proof {
            lemma_push(self.entries@, entry);
            assert forall|other: ContentId| other != content implies #[trigger] entry_of(
                self.entries@,
                other,
            ) == old(self).cached(other) by {
                assert(without.cached(other) == old(self).cached(other));
            }
        }
        let ghost cleared = *self;
        self.resident_bytes = self.resident_bytes + bytes;
        self.entries.push(entry);
        assert forall|other: ContentId| #[trigger] self.has_failed(other) == cleared.has_failed(
            other,
        ) by {}
        assert(!cleared.has_failed(content));
    }

    /// Records that an id will not render.
    pub fn mark_failed(&mut self, content: ContentId)
        requires
            old(self).inv(),
        ensures
            final(self).inv(),
            final(self).cached(content) is None,
            final(self).has_failed(content),
            final(self).resident_bytes <= old(self).resident_bytes,
            forall|other: ContentId|
                other != content ==> #[trigger] final(self).cached(other) == old(self).cached(other),
            forall|other: ContentId|
                other != content ==> #[trigger] final(self).has_failed(other) == old(
                    self).has_failed(other),
    {
        self.remove_entry(content);
        let ghost before = self.failed@;
        let ghost without = *self;
        self.failed.push(content);
        proof {
            assert forall|other: ContentId| #[trigger]
                self.has_failed(other) == (before.contains(other) || other == content) by {
                lemma_push_contains(before, content, other);
            }
            assert forall|other: ContentId| other != content implies #[trigger] self.cached(other)
                == old(self).cached(other) by {
                assert(without.cached(other) == old(self).cached(other));
            }
        }
    }

    /// What is held for an optional id at a scale.
    pub open spec fn looked_up(&self, content: Option<ContentId>, scale: u32) -> PageImage {
        match content {
            None => PageImage::Missing,
            Some(id) => match self.cached(id) {
                Some(entry) => if same_number(entry.rendered_scale, scale) {
                    PageImage::Current(entry.image)
                } else {
                    PageImage::Stale(entry.image)
                },
                None => if self.has_failed(id) {
                    PageImage::Failed
                } else {
                    PageImage::Missing
                },
            },
        }
    }

    pub fn lookup(&self, content: Option<ContentId>, current_scale: u32) -> (r: PageImage)
        ensures
            r == self.looked_up(content, current_scale),
    {
        let id = match content {
            Some(id) => id,
            None => {
                return PageImage::Missing;
            },
        };
        if let Some(k) = self.find(id) {
            let entry = &self.entries[k];
            return if numbers_equal(entry.rendered_scale, current_scale) {
                PageImage::Current(entry.image.clone())
            } else {
                PageImage::Stale(entry.image.clone())
            };
        }
        let mut k: usize = 0;
        while k < self.failed.len()
            invariant
                k <= self.failed@.len(),
                content == Some(id),
                self.cached(id) is None,
                forall|j: int| 0 <= j < k ==> #[trigger] self.failed@[j] != id,
            decreases self.failed@.len() - k,
        {
            if self.failed[k].0 == id.0 {
                assert(self.failed@[k as int] == id);
                return PageImage::Failed;
            }
            k = k + 1;
        }
        PageImage::Missing
    }

    pub fn resident_bytes(&self) -> (n: usize)
        requires
            self.inv(),
        ensures
            n == total_bytes(self.entries@),
    {
        self.resident_bytes
    }

    /// Drops everything not reachable from the held set.
    ///
    /// Eviction is by *absence from `held`*, never by per-index refcount: the
    /// index-to-content map is many-to-one, so dropping the image of an index
    /// that left the window would evict an image another held index still
    /// displays.
    pub fn retain_held(&mut self, held: &HashSet<u128>)
        requires
            old(self).inv(),
        ensures
            final(self).inv(),
            forall|id: ContentId| #[trigger]
                final(self).cached(id) == if held@.contains(id.0) {
                    old(self).cached(id)
                } else {
                    None
                },
            forall|id: ContentId| #[trigger]
                final(self).has_failed(id) == (old(self).has_failed(id) && held@.contains(id.0)),
            final(self).resident_bytes <= old(self).resident_bytes,
    {
        let ghost before = *self;
        let mut k: usize = 0;
        while k < self.entries.len()
            invariant
                k <= self.entries@.len(),
                self.inv(),
                self.failed == before.failed,
                self.resident_bytes <= before.resident_bytes,
                forall|j: int|
                    0 <= j < k ==> held@.contains((#[trigger] self.entries@[j]).content.0),
                forall|id: ContentId| #[trigger]
                    self.cached(id) == before.cached(id) || (self.cached(id) is None
                        && !held@.contains(id.0)),
            decreases self.entries@.len() - k,
        {
            let id: u128 = self.entries[k].content.0;
            if held.contains(&id) {
                k = k + 1;
            } else {
                let ghost earlier = *self;
                proof {
                    lemma_remove(self.entries@, k as int);
                    lemma_total_positive(self.entries@.remove(k as int));
                    lemma_total_positive(self.entries@);
                }
                let removed = self.entries.remove(k);
                self.resident_bytes = self.resident_bytes - removed.bytes;
                assert forall|id: ContentId| #[trigger]
                    self.cached(id) == before.cached(id) || (self.cached(id) is None
                        && !held@.contains(id.0)) by {
                    assert(earlier.cached(id) == before.cached(id) || (earlier.cached(id) is None
                        && !held@.contains(id.0)));
                }
            }
        }
        assert forall|id: ContentId| #[trigger]
            self.cached(id) == if held@.contains(id.0) {
            before.cached(id)
        } else {
            None
        } by {
            lemma_entry_from(self.entries@, id, 0);
        }
        let ghost pruned = *self;
        let ghost all = self.failed@;
        let mut kept: Vec<ContentId> = Vec::new();
        let mut f: usize = 0;
        while f < self.failed.len()
            invariant
                f <= all.len(),
                self.failed@ == all,
                *self == pruned,
                forall|other: ContentId| #[trigger]
                    kept@.contains(other) <==> held@.contains(other.0) && all.take(
                        f as int,
                    ).contains(other),
            decreases all.len() - f,
        {
            let one = self.failed[f];
            let ghost earlier = kept@;
            let ghost seen = all.take(f as int);
            assert(all.take(f + 1) =~= seen.push(one));
            if held.contains(&one.0) {
                kept.push(one);
            }
            proof {
                assert forall|other: ContentId| #[trigger]
                    kept@.contains(other) <==> held@.contains(other.0) && all.take(
                    f + 1,
                ).contains(other) by {
                    lemma_push_contains(seen, one, other);
                    lemma_push_contains(earlier, one, other);
                    assert(earlier.contains(other) <==> held@.contains(other.0) && seen.contains(
                        other,
                    ));
                }
            }
            f = f + 1;
        }
        assert(all.take(f as int) =~= all);
        self.failed = kept;
        assert forall|id: ContentId| #[trigger]
            self.cached(id) == if held@.contains(id.0) {
            before.cached(id)
        } else {
            None
        } by {
            assert(self.cached(id) == pruned.cached(id));
        }
    }
}

/// What a longer sequence contains.
proof fn lemma_push_contains(ids: Seq<ContentId>, one: ContentId, other: ContentId)
    ensures
        ids.push(one).contains(other) <==> ids.contains(other) || other == one,
{
    let more = ids.push(one);
    if ids.contains(other) {
        let k = choose|k: int| 0 <= k < ids.len() && ids[k] == other;
        assert(more[k] == other);
    }
    if other == one {
        assert(more[ids.len() as int] == other);
    }
    if more.contains(other) {
        let k = choose|k: int| 0 <= k < more.len() && more[k] == other;
        if k < ids.len() {
            assert(ids[k] == other);
        }
    }
}

/// What is drawn at an index: what is held for its content, or, while nothing
/// is, what was shown there before.
pub open spec fn drawn_at(
    table: &PageTable,
    images: &ImageCache,
    index: int,
    scale: u32,
) -> PageImage {
    let current = table.content(index);
    match images.looked_up(current, scale) {
        PageImage::Missing => {
            let previous = table.shown(index);
            if previous is Some && previous != current {
                match images.looked_up(previous, scale) {
                    PageImage::Current(image) => PageImage::Stale(image),
                    PageImage::Stale(image) => PageImage::Stale(image),
                    _ => PageImage::Missing,
                }
            } else {
                PageImage::Missing
            }
        },
        other => other,
    }
}

/// What to draw at `index`, falling back to the previous content while a
/// replacement is in flight.
///
/// The fallback is what removes the white flash after a keystroke. A `pages`
/// delta parses instantly while the image behind it needs a few milliseconds to
/// decode, so the two land in different batches. Showing the previous render for
/// those few milliseconds is what every PDF viewer does.
pub fn lookup_for_index(table: &PageTable, images: &ImageCache, index: usize, scale: u32) -> (r:
    PageImage)
    ensures
        r == drawn_at(table, images, index as int, scale),
{
    let current = table.content_at(index);
    match images.lookup(current, scale) {
        PageImage::Missing => {
            let previous = match table.displayed_at(index) {
                Some(previous) => previous,
                None => {
                    return PageImage::Missing;
                },
            };
            let same = match current {
                Some(current) => current.0 == previous.0,
                None => false,
            };
            if same {
                return PageImage::Missing;
            }
            match images.lookup(Some(previous), scale) {
                PageImage::Current(image) => PageImage::Stale(image),
                PageImage::Stale(image) => PageImage::Stale(image),
                _ => PageImage::Missing,
            }
        },
        other => other,
    }
}

/// Retention never drops what an index relies on: where its content and what it
/// shows are held, the same is drawn after the rest was dropped.
pub proof fn law_retention_keeps_drawing(
    table: &PageTable,
    before: &ImageCache,
    after: &ImageCache,
    held: Set<u128>,
    index: int,
    scale: u32,
)
    requires
        forall|id: ContentId| #[trigger]
            after.cached(id) == if held.contains(id.0) {
                before.cached(id)
            } else {
                None
            },
        forall|id: ContentId| #[trigger]
            after.has_failed(id) == (before.has_failed(id) && held.contains(id.0)),
        table.content(index) matches Some(id) ==> held.contains(id.0),
        table.shown(index) matches Some(id) ==> held.contains(id.0),
    ensures
        drawn_at(table, after, index, scale) == drawn_at(table, before, index, scale),
{
}

/// The ids that a list of indices relies on hold the content and what is shown
/// at each of them.
pub proof fn law_ids_in_use_cover(table: &PageTable, indices: Seq<usize>, k: int)
    requires
        0 <= k < indices.len(),
    ensures
        table.content(indices[k] as int) matches Some(id) ==> table.used_ids(
            indices,
            indices.len(),
        ).contains(id),
        table.shown(indices[k] as int) matches Some(id) ==> table.used_ids(
            indices,
            indices.len(),
        ).contains(id),
{
    lemma_used_ids(table, indices, k, indices.len());
}

proof fn lemma_used_ids(table: &PageTable, indices: Seq<usize>, k: int, n: nat)
    requires
        0 <= k < n <= indices.len(),
    ensures
        table.content(indices[k] as int) matches Some(id) ==> table.used_ids(indices, n).contains(
            id,
        ),
        table.shown(indices[k] as int) matches Some(id) ==> table.used_ids(indices, n).contains(id),
    decreases n,
{
    let before = table.used_ids(indices, (n - 1) as nat);
    let all = table.used_ids(indices, n);
    let last = indices[n - 1] as int;
    let content = crate::typst_viewer::page_table::as_seq(table.content(last));
    let shown = crate::typst_viewer::page_table::as_seq(table.shown(last));
    assert(all == before + content + shown);
    if k < n - 1 {
        lemma_used_ids(table, indices, k, (n - 1) as nat);
        assert forall|id: ContentId| before.contains(id) implies all.contains(id) by {
            let j = choose|j: int| 0 <= j < before.len() && before[j] == id;
            assert(all[j] == id);
        }
    } else {
        if let Some(id) = table.content(last) {
            assert(all[before.len() as int] == id);
        }
        if let Some(id) = table.shown(last) {
            assert(all[(before.len() + content.len()) as int] == id);
        }
    }
}

/// A change of scale makes a held image stale; it never makes it missing.
pub proof fn law_zoom_keeps_images(images: &ImageCache, id: ContentId, scale: u32)
    requires
        images.cached(id) is Some,
    ensures
        images.looked_up(Some(id), scale) is Current || images.looked_up(Some(id), scale) is Stale,
        images.looked_up(Some(id), scale) is Current <==> same_number(
            images.cached(id)->0.rendered_scale,
            scale,
        ),
{
}

/// A page whose content changed keeps drawing what it showed while the image
/// of the new content is missing, flagged as stale.
pub proof fn law_no_white_flash(
    table: &PageTable,
    images: &ImageCache,
    index: int,
    scale: u32,
    shown: ContentId,
)
    requires
        table.shown(index) == Some(shown),
        images.cached(shown) is Some,
        table.content(index) != Some(shown),
        images.looked_up(table.content(index), scale) is Missing,
    ensures
        drawn_at(table, images, index, scale) == PageImage::Stale(images.cached(shown)->0.image),
{
}

/// A page that was never drawn is missing, not stale, until its image arrives.
pub proof fn law_never_drawn_is_missing(
    table: &PageTable,
    images: &ImageCache,
    index: int,
    scale: u32,
)
    requires
        table.shown(index) is None,
        images.looked_up(table.content(index), scale) is Missing,
    ensures
        drawn_at(table, images, index, scale) is Missing,
{
}

/// What is held for an id is an entry of that id, and nothing is held only where no
/// entry has the id.
pub proof fn law_held_entry(images: &ImageCache, id: ContentId)
    ensures
        match images.cached(id) {
            Some(entry) => entry.content == id && images.entries@.contains(entry),
            None => forall|k: int|
                0 <= k < images.entries@.len() ==> (#[trigger] images.entries@[k]).content != id,
        },
{
    lemma_held_from(images.entries@, id, 0);
}

proof fn lemma_held_from(entries: Seq<CachedImage>, id: ContentId, from: int)
    requires
        0 <= from,
    ensures
        match entry_from(entries, id, from) {
            Some(k) => from <= k < entries.len() && entries[k].content == id,
            None => forall|k: int|
                from <= k < entries.len() ==> (#[trigger] entries[k]).content != id,
        },
    decreases entries.len() - from,
{
    if from < entries.len() {
        lemma_held_from(entries, id, from + 1);
    }
}

/// The bytes of images add up.
pub proof fn law_bytes_add_up(a: Seq<CachedImage>, b: Seq<CachedImage>, entry: CachedImage)
    ensures
        total_bytes(a + b) == total_bytes(a) + total_bytes(b),
        total_bytes(seq![entry]) == entry.bytes,
    decreases b.len(),
{
    assert(seq![entry].drop_last() =~= Seq::empty());
    assert(total_bytes(Seq::empty()) == 0);
    if b.len() == 0 {
        assert(a + b =~= a);
    } else {
        law_bytes_add_up(a, b.drop_last(), entry);
        assert((a + b).drop_last() =~= a + b.drop_last());
    }
}

/// A page with an image of its content draws that image, stale where its scale is
/// another one; one whose content failed says so.
pub proof fn law_what_is_drawn(
    table: &PageTable,
    images: &ImageCache,
    index: int,
    scale: u32,
    id: ContentId,
)
    requires
        table.content(index) == Some(id),
    ensures
        images.cached(id) matches Some(entry) ==> drawn_at(table, images, index, scale)
            == if same_number(entry.rendered_scale, scale) {
            PageImage::Current(entry.image)
        } else {
            PageImage::Stale(entry.image)
        },
        images.cached(id) is None && images.has_failed(id) ==> drawn_at(
            table,
            images,
            index,
            scale,
        ) is Failed,
        drawn_at(table, images, index, scale) is Failed ==> images.has_failed(id)
            && images.cached(id) is None,
        drawn_at(table, images, index, scale) is Current ==> images.cached(id) is Some,
{
}

} // verus!
