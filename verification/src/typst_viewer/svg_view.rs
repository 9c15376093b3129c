//! How SVG pages from the server become images on screen.
//!
//! Messages are collected until none is waiting, so that only the freshest SVG
//! of each page is rasterized, the visible page first.
use crate::stable_sort::{
    law_sort_loses_nothing, law_stable_order, lemma_sorted_items, stable_order, stable_sort,
    stably_sorted,
};
use crate::text::{decimal, find_bytes, first_occurrence, push_decimal, slice};
use crate::typst_viewer::decode::RenderImage;
use crate::typst_viewer::svg_stream::{
    glyph_defs, inject_glyph_defs, injected, parse_svg_message, svg_message, DEFS_CLOSE,
    GLYPH_DEFS_OPEN,
};
use std::collections::HashMap;
use std::sync::Arc;
use vstd::prelude::*;
use vstd::std_specs::hash::*;
use vstd::string::*;
use vstd::utf8::*;

verus! {

broadcast use vstd::std_specs::hash::group_hash_axioms;

/// The latest SVG of a page.
#[derive(Debug)]
pub struct PageSvg {
    pub index: usize,
    pub svg: String,
}

/// The pages that arrived together, each in its latest version.
#[derive(Debug)]
pub struct PageBatch {
    pub total: usize,
    pub pages: Vec<PageSvg>,
}

/// The pages of a list by index.
pub open spec fn pages_map(pages: Seq<PageSvg>) -> Map<usize, Seq<u8>>
    decreases pages.len(),
{
    if pages.len() == 0 {
        Map::empty()
    } else {
        pages_map(pages.drop_last()).insert(pages.last().index, encode_utf8(pages.last().svg@))
    }
}

/// No index occurs twice.
pub open spec fn distinct_pages(pages: Seq<PageSvg>) -> bool {
    forall|i: int, j: int|
        0 <= i < j < pages.len() ==> (#[trigger] pages[i]).index != (#[trigger] pages[j]).index
}

/// Where no index occurs twice, the map holds exactly the listed pages.
proof fn lemma_pages_map(pages: Seq<PageSvg>)
    requires
        distinct_pages(pages),
    ensures
        forall|i: int|
            0 <= i < pages.len() ==> pages_map(pages).contains_pair(
                (#[trigger] pages[i]).index,
                encode_utf8(pages[i].svg@),
            ),
        forall|index: usize| #[trigger]
            pages_map(pages).contains_key(index) ==> exists|i: int|
                0 <= i < pages.len() && (#[trigger] pages[i]).index == index,
    decreases pages.len(),
{
    if pages.len() > 0 {
        let shorter = pages.drop_last();
        assert(distinct_pages(shorter)) by {
            assert forall|i: int, j: int| 0 <= i < j < shorter.len() implies (
            #[trigger] shorter[i]).index != (#[trigger] shorter[j]).index by {
                assert(pages[i].index != pages[j].index);
            }
        }
        lemma_pages_map(shorter);
        let last = pages.len() - 1;
        assert forall|i: int| 0 <= i < pages.len() implies pages_map(pages).contains_pair(
            (#[trigger] pages[i]).index,
            encode_utf8(pages[i].svg@),
        ) by {
            if i < last {
                assert(shorter[i] == pages[i]);
                assert(pages[i].index != pages[last].index);
            }
        }
        assert forall|index: usize| #[trigger]
            pages_map(pages).contains_key(index) implies exists|i: int|
            0 <= i < pages.len() && (#[trigger] pages[i]).index == index by {
            if index == pages[last].index {
            } else {
                assert(pages_map(shorter).contains_key(index));
                let i = choose|i: int| 0 <= i < shorter.len() && (#[trigger] shorter[i]).index
                    == index;
                assert(pages[i].index == index);
            }
        }
    }
}

/// Replacing the SVG of a listed page replaces it in the map.
proof fn lemma_replace_page(pages: Seq<PageSvg>, k: int, page: PageSvg)
    requires
        distinct_pages(pages),
        0 <= k < pages.len(),
        page.index == pages[k].index,
    ensures
        distinct_pages(pages.update(k, page)),
        pages_map(pages.update(k, page)) == pages_map(pages).insert(
            page.index,
            encode_utf8(page.svg@),
        ),
{
    let now = pages.update(k, page);
    assert forall|i: int, j: int| 0 <= i < j < now.len() implies (#[trigger] now[i]).index != (
    #[trigger] now[j]).index by {
        assert(now[i].index == pages[i].index && now[j].index == pages[j].index);
    }
    lemma_pages_map(pages);
    lemma_pages_map(now);
    let goal = pages_map(pages).insert(page.index, encode_utf8(page.svg@));
    assert forall|index: usize| true implies (#[trigger] pages_map(now).contains_key(index)
        <==> goal.contains_key(index)) && (goal.contains_key(index) ==> pages_map(now)[index]
        == goal[index]) by {
        if pages_map(now).contains_key(index) {
            let i = choose|i: int| 0 <= i < now.len() && (#[trigger] now[i]).index == index;
            assert(pages[i].index == index);
        }
        if pages_map(pages).contains_key(index) {
            let i = choose|i: int| 0 <= i < pages.len() && (#[trigger] pages[i]).index == index;
            assert(now[i].index == index);
        }
        assert(now[k] == page);
    }
    assert(pages_map(now) =~= goal);
}

/// What a batch holds after a message: a message of the first page with another
/// page count starts a newer batch and drops what was collected; otherwise the
/// page replaces its predecessor. A message without SVG changes nothing.
pub open spec fn after_message(
    total: nat,
    pages: Map<usize, Seq<u8>>,
    message: Option<(nat, nat, Seq<u8>)>,
) -> (nat, Map<usize, Seq<u8>>) {
    match message {
        None => (total, pages),
        Some((index, count, svg)) => {
            if index == 0 && count != total {
                (count, Map::<usize, Seq<u8>>::empty().insert(index as usize, svg))
            } else {
                (total, pages.insert(index as usize, svg))
            }
        },
    }
}

impl PageBatch {
    pub open spec fn inv(&self) -> bool {
        distinct_pages(self.pages@)
    }

    /// The latest SVG of each page.
    pub open spec fn map(&self) -> Map<usize, Seq<u8>> {
        pages_map(self.pages@)
    }

    /// Starts a batch with a message, unless it carries no SVG.
    pub fn start(text: &str) -> (r: Option<PageBatch>)
        ensures
            match r {
                Some(batch) => {
                    &&& batch.inv()
                    &&& svg_message(text.spec_bytes()) matches Some((index, total, svg))
                    &&& batch.total == total
                    &&& batch.map() == Map::<usize, Seq<u8>>::empty().insert(index as usize, svg)
                },
                None => svg_message(text.spec_bytes()) is None,
            },
    {
        match parse_svg_message(text) {
            Some((index, total, svg)) => {
                let mut pages: Vec<PageSvg> = Vec::new();
                pages.push(PageSvg { index, svg });
                assert(pages@.drop_last() =~= Seq::<PageSvg>::empty());
                assert(pages_map(pages@.drop_last()) =~= Map::<usize, Seq<u8>>::empty());
                Some(PageBatch { total, pages })
            },
            None => None,
        }
    }

    /// Adds a message that was waiting behind the others. Returns whether it
    /// replaced a page.
    pub fn add(&mut self, text: &str) -> (replaced: bool)
        requires
            old(self).inv(),
        ensures
            final(self).inv(),
            (final(self).total as nat, final(self).map()) == after_message(
                old(self).total as nat,
                old(self).map(),
                svg_message(text.spec_bytes()),
            ),
            replaced == match svg_message(text.spec_bytes()) {
                Some((index, total, _)) => !(index == 0 && total != old(self).total) && old(
                    self).map().contains_key(index as usize),
                None => false,
            },
    {
        let (index, total, svg) = match parse_svg_message(text) {
            Some(parsed) => parsed,
            None => {
                return false;
            },
        };
        if index == 0 && total != self.total {
            self.pages.clear();
            self.total = total;
        }
        let ghost before = self.pages@;
        proof {
            lemma_pages_map(before);
            if before.len() == 0 {
                assert(pages_map(before) =~= Map::<usize, Seq<u8>>::empty());
            }
        }
        match self.find_page(index) {
            Some(k) => {
                let page = PageSvg { index, svg };
                proof {
                    lemma_replace_page(before, k as int, page);
                    assert(pages_map(before).contains_key(before[k as int].index));
                }
                self.pages.set(k, page);
                true
            },
            None => {
                self.pages.push(PageSvg { index, svg });
                assert(self.pages@.drop_last() =~= before);
                false
            },
        }
    }

    /// The position of a page in the list.
    fn find_page(&self, index: usize) -> (r: Option<usize>)
        ensures
            match r {
                Some(k) => k < self.pages@.len() && self.pages@[k as int].index == index,
                None => forall|j: int|
                    0 <= j < self.pages@.len() ==> (#[trigger] self.pages@[j]).index != index,
            },
    {
        let mut k: usize = 0;
        while k < self.pages.len()
            invariant
                k <= self.pages@.len(),
                forall|j: int| 0 <= j < k ==> (#[trigger] self.pages@[j]).index != index,
            decreases self.pages@.len() - k,
        {
            if self.pages[k].index == index {
                return Some(k);
            }
            k = k + 1;
        }
        None
    }

    /// The indices of the collected pages, in the order in which they are
    /// rasterized: the visible page first, then by their distance from it, the
    /// lower index of two first.
    pub fn page_order(&self, visible_page: usize) -> (order: Vec<usize>)
        ensures
            order@ == ordered_by_distance(indices_of(self.pages@), visible_page),
    {
        let mut order: Vec<usize> = Vec::new();
        let mut keys: Vec<usize> = Vec::new();
        let mut k: usize = 0;
        while k < self.pages.len()
            invariant
                k <= self.pages@.len(),
                order@.len() == k,
                keys@ == order@,
                forall|j: int| 0 <= j < k ==> #[trigger] order@[j] == self.pages@[j].index,
            decreases self.pages@.len() - k,
        {
            order.push(self.pages[k].index);
            keys.push(self.pages[k].index);
            k = k + 1;
        }
        assert(order@ =~= indices_of(self.pages@));
        stable_sort(&mut order, &mut keys);
        let ghost sorted = order@;
        let mut distances: Vec<usize> = Vec::new();
        let mut j: usize = 0;
        while j < order.len()
            invariant
                j <= order@.len(),
                order@ == sorted,
                distances@.len() == j,
                forall|i: int|
                    0 <= i < j ==> #[trigger] distances@[i] == apart(sorted[i], visible_page),
            decreases order@.len() - j,
        {
            let index: usize = order[j];
            distances.push(
                if index < visible_page {
                    visible_page - index
                } else {
                    index - visible_page
                },
            );
            j = j + 1;
        }
        assert(distances@ =~= distances_from(sorted, visible_page));
        stable_sort(&mut order, &mut distances);
        order
    }

    /// The collected SVG of a page.
    pub fn svg_of(&self, index: usize) -> (r: Option<&str>)
        requires
            self.inv(),
        ensures
            match r {
                Some(svg) => self.map().contains_pair(index, svg.spec_bytes()),
                None => !self.map().contains_key(index),
            },
    {
        proof {
            lemma_pages_map(self.pages@);
        }
        match self.find_page(index) {
            Some(k) => Some(self.pages[k].svg.as_str()),
            None => None,
        }
    }
}

/// The indices of listed pages.
pub open spec fn indices_of(pages: Seq<PageSvg>) -> Seq<usize> {
    pages.map_values(|page: PageSvg| page.index)
}

/// How far apart two indices are.
pub open spec fn apart(a: usize, b: usize) -> usize {
    (if a < b {
        b - a
    } else {
        a - b
    }) as usize
}

/// How far indices are from one.
pub open spec fn distances_from(indices: Seq<usize>, from: usize) -> Seq<usize> {
    indices.map_values(|index: usize| apart(index, from))
}

/// Indices by their distance from one, and those at the same distance by size.
pub open spec fn ordered_by_distance(indices: Seq<usize>, from: usize) -> Seq<usize> {
    let sorted = stably_sorted(indices, indices);
    stably_sorted(sorted, distances_from(sorted, from))
}

/// The order by distance lists every page, the nearest first.
pub proof fn law_nearest_first(indices: Seq<usize>, from: usize, a: int, b: int)
    requires
        0 <= a < b < indices.len(),
    ensures
        ordered_by_distance(indices, from).len() == indices.len(),
        apart(ordered_by_distance(indices, from)[a], from) <= apart(
            ordered_by_distance(indices, from)[b],
            from,
        ),
{
    let sorted = stably_sorted(indices, indices);
    lemma_sorted_items(indices, indices);
    let distances = distances_from(sorted, from);
    lemma_sorted_items(sorted, distances);
    law_stable_order(distances, distances.len());
    let order = stable_order(distances, distances.len());
    assert(ordered_by_distance(indices, from)[a] == sorted[order[a]]);
    assert(ordered_by_distance(indices, from)[b] == sorted[order[b]]);
    assert(distances[order[a]] <= distances[order[b]]);
}

/// The page at the scroll position: an estimate, kept within the pages.
pub fn visible_page(estimate: usize, page_count: usize) -> (r: usize)
    ensures
        r == if page_count == 0 {
            0
        } else if estimate < page_count {
            estimate as int
        } else {
            page_count - 1
        },
{
    let last: usize = page_count.saturating_sub(1);
    if estimate < last {
        estimate
    } else {
        last
    }
}

/// The definitions of glyphs last seen on each page.
#[derive(Debug)]
pub struct GlyphDefsCache {
    pub defs: HashMap<usize, String>,
}

/// Whether an SVG opens definitions of glyphs.
pub open spec fn opens_defs(svg: Seq<u8>) -> bool {
    first_occurrence(svg, GLYPH_DEFS_OPEN.spec_bytes(), 0) is Some
}

impl GlyphDefsCache {
    /// The encoded definitions of each page.
    pub open spec fn known(&self) -> Map<usize, Seq<u8>> {
        self.defs@.map_values(|defs: String| encode_utf8(defs@))
    }

    pub fn new() -> (r: Self)
        ensures
            r.known() == Map::<usize, Seq<u8>>::empty(),
    {
        let r = GlyphDefsCache { defs: HashMap::new() };
        assert(r.known() =~= Map::<usize, Seq<u8>>::empty());
        r
    }

    /// Makes an SVG complete: the first frame of a page has full definitions,
    /// which are kept; the server strips them from later frames, where the kept
    /// ones are inserted.
    pub fn complete(&mut self, page_index: usize, svg: &str) -> (r: Vec<u8>)
        ensures
            final(self).known() == match glyph_defs(svg.spec_bytes()) {
                Some(defs) => old(self).known().insert(page_index, defs),
                None => old(self).known(),
            },
            r@ == if !opens_defs(svg.spec_bytes()) && old(self).known().contains_key(page_index) {
                match injected(svg.spec_bytes(), old(self).known()[page_index]) {
                    Some(bytes) => bytes,
                    None => svg.spec_bytes(),
                }
            } else {
                svg.spec_bytes()
            },
    {
        let bytes = svg.as_bytes();
        let len: usize = bytes.len();
        let ghost before = self.known();
        proof {
            encode_utf8_valid_utf8(svg@);
        }
        if let Some(start) = find_bytes(bytes, GLYPH_DEFS_OPEN.as_bytes(), 0) {
            if let Some(close) = find_bytes(bytes, DEFS_CLOSE.as_bytes(), start) {
                assert(close + DEFS_CLOSE.spec_bytes().len() <= len);
                let end: usize = close + DEFS_CLOSE.as_bytes().len();
                proof {
                    lemma_defs_boundaries(bytes@, start as int, close as int);
                }
                let defs = slice(svg, start, end).to_owned();
                let ghost found = encode_utf8(defs@);
                self.defs.insert(page_index, defs);
                assert(self.known() =~= before.insert(page_index, found));
            }
            return vstd::slice::slice_to_vec(bytes);
        }
        match self.defs.get(&page_index) {
            Some(defs) => inject_glyph_defs(bytes, defs.as_str()),
            None => vstd::slice::slice_to_vec(bytes),
        }
    }
}

/// The tags around definitions stand between characters.
proof fn lemma_defs_boundaries(bytes: Seq<u8>, start: int, close: int)
    requires
        valid_utf8(bytes),
        crate::text::occurs_at(bytes, GLYPH_DEFS_OPEN.spec_bytes(), start),
        crate::text::occurs_at(bytes, DEFS_CLOSE.spec_bytes(), close),
    ensures
        is_char_boundary(bytes, start),
        is_char_boundary(bytes, close + DEFS_CLOSE.spec_bytes().len()),
{
    reveal_strlit("<defs id=\"glyph\">");
    reveal_strlit("</defs>");
    assert(GLYPH_DEFS_OPEN.is_ascii());
    assert(DEFS_CLOSE.is_ascii());
    is_ascii_spec_bytes(GLYPH_DEFS_OPEN);
    is_ascii_spec_bytes(DEFS_CLOSE);
    let open = GLYPH_DEFS_OPEN.spec_bytes();
    let end = DEFS_CLOSE.spec_bytes();
    assert(bytes.subrange(start, start + open.len())[0] == open[0]);
    assert(bytes.subrange(close, close + end.len())[end.len() - 1] == end[end.len() - 1]);
    crate::text::lemma_boundary_after_ascii(bytes, start);
    crate::text::lemma_boundary_after_ascii(bytes, close + end.len() - 1);
}

/// What the preview shows.
#[derive(Debug)]
pub enum PreviewState {
    Connecting,
    Rendering { pages: Vec<Option<Arc<RenderImage>>> },
    Disconnected { reason: String },
    Error { message: String },
}

/// The pages after an image arrived: as many as the document has, the image at
/// its index.
pub open spec fn with_page(
    pages: Seq<Option<Arc<RenderImage>>>,
    total: nat,
    index: int,
    image: Arc<RenderImage>,
) -> Seq<Option<Arc<RenderImage>>> {
    Seq::new(
        total,
        |i: int|
            if i == index {
                Some(image)
            } else if i < pages.len() {
                pages[i]
            } else {
                None
            },
    )
}

impl PreviewState {
    /// The pages shown, none unless pages are rendered.
    pub open spec fn pages(&self) -> Seq<Option<Arc<RenderImage>>> {
        match self {
            PreviewState::Rendering { pages } => pages@,
            _ => Seq::empty(),
        }
    }

    /// Shows the image of a page in a document of `total` pages.
    pub fn show_page(self, total: usize, page_index: usize, image: Arc<RenderImage>) -> (r: Self)
        ensures
            r is Rendering,
            r.pages() == with_page(self.pages(), total as nat, page_index as int, image),
    {
        let ghost before = self.pages();
        let mut pages: Vec<Option<Arc<RenderImage>>> = match self {
            PreviewState::Rendering { pages } => pages,
            _ => Vec::new(),
        };
        pages.truncate(total);
        while pages.len() < total
            invariant
                pages@.len() <= total,
                before.len() <= total ==> pages@.len() >= before.len(),
                before.len() > total ==> pages@.len() == total,
                forall|i: int|
                    0 <= i < pages@.len() ==> #[trigger] pages@[i] == if i < before.len() {
                        before[i]
                    } else {
                        None
                    },
            decreases total - pages@.len(),
        {
            pages.push(None);
        }
        if page_index < pages.len() {
            pages.set(page_index, Some(image));
        }
        assert(pages@ =~= with_page(before, total as nat, page_index as int, image));
        PreviewState::Rendering { pages }
    }

    /// The message shown in place of pages, if any.
    pub fn message(&self) -> (r: Option<String>)
        ensures
            match self {
                PreviewState::Connecting => r matches Some(text) && text@
                    == "Connecting to preview server…"@,
                PreviewState::Rendering { .. } => r is None,
                PreviewState::Disconnected { reason } => r matches Some(text) && text@
                    == "Disconnected: "@ + reason@,
                PreviewState::Error { message } => r matches Some(text) && text@ == "Error: "@
                    + message@,
            },
    {
        match self {
            PreviewState::Connecting => Some("Connecting to preview server…".to_owned()),
            PreviewState::Rendering { .. } => None,
            PreviewState::Disconnected { reason } => {
                let mut text = "Disconnected: ".to_owned();
                text.append(reason.as_str());
                Some(text)
            },
            PreviewState::Error { message } => {
                let mut text = "Error: ".to_owned();
                text.append(message.as_str());
                Some(text)
            },
        }
    }
}

/// What stands in the place of a page.
#[derive(Debug)]
pub enum PageSlot {
    Image(Arc<RenderImage>),
    /// A label, while there is no image.
    Loading(String),
}

/// What the preview is made of.
#[derive(Debug)]
pub enum PreviewContent {
    Message(String),
    Pages(Vec<PageSlot>),
}

/// The label of a page that has not been rendered, as text.
pub open spec fn loading_text(index: int) -> Seq<char> {
    "Loading page "@ + decimal((index + 1) as nat) + "…"@
}

impl PreviewState {
    /// What is drawn: a message, or each page's image or label.
    pub fn render(&self) -> (content: PreviewContent)
        ensures
            match self {
                PreviewState::Connecting => content matches PreviewContent::Message(text) && text@
                    == "Connecting to preview server…"@,
                PreviewState::Disconnected { reason } => content matches PreviewContent::Message(
                    text,
                ) && text@ == "Disconnected: "@ + reason@,
                PreviewState::Error { message } => content matches PreviewContent::Message(text)
                    && text@ == "Error: "@ + message@,
                PreviewState::Rendering { pages } => {
                    &&& content matches PreviewContent::Pages(slots)
                    &&& slots@.len() == pages@.len()
                    &&& forall|i: int|
                        0 <= i < slots@.len() ==> match pages@[i] {
                            Some(image) => #[trigger] slots@[i] == PageSlot::Image(image),
                            None => slots@[i] matches PageSlot::Loading(label) && label@
                                == loading_text(i),
                        }
                },
            },
    {
        if let PreviewState::Rendering { pages } = self {
            let mut slots: Vec<PageSlot> = Vec::new();
            let len: usize = pages.len();
            let mut i: usize = 0;
            while i < len
                invariant
                    i <= len == pages@.len(),
                    slots@.len() == i,
                    forall|j: int|
                        0 <= j < i ==> match pages@[j] {
                            Some(image) => #[trigger] slots@[j] == PageSlot::Image(image),
                            None => slots@[j] matches PageSlot::Loading(label) && label@
                                == loading_text(j),
                        },
                decreases len - i,
            {
                let slot = match &pages[i] {
                    Some(image) => PageSlot::Image(image.clone()),
                    None => PageSlot::Loading(loading_label(i)),
                };
                slots.push(slot);
                i = i + 1;
            }
            return PreviewContent::Pages(slots);
        }
        match self.message() {
            Some(text) => PreviewContent::Message(text),
            None => PreviewContent::Pages(Vec::new()),
        }
    }

    /// The number of pages that the scroll position is estimated among: those
    /// shown, or else those of the document.
    pub fn page_count(&self, total: usize) -> (n: usize)
        ensures
            n == match self {
                PreviewState::Rendering { pages } => if pages@.len() == 0 {
                    1
                } else {
                    pages@.len()
                },
                _ => total as nat,
            },
    {
        match self {
            PreviewState::Rendering { pages } => if pages.len() == 0 {
                1
            } else {
                pages.len()
            },
            _ => total,
        }
    }
}

/// The label of a page that has not been rendered.
pub fn loading_label(index: usize) -> (s: String)
    requires
        index < usize::MAX,
    ensures
        s@ == loading_text(index as int),
{
    let mut s = "Loading page ".to_owned();
    push_decimal(&mut s, index as u64 + 1);
    s.append("…");
    s
}

/// A message on the connection.
#[derive(Debug)]
pub enum SocketMessage {
    Text(String),
    /// A binary message, a ping or anything else without text.
    Other,
    Closed,
    /// An error, in words.
    Failed(String),
}

/// What follows a message on the connection.
#[derive(Debug)]
pub enum SocketStep {
    /// Collect the pages that came with it, and render them.
    Render(PageBatch),
    /// Wait for the next message.
    Wait,
    /// Show a state and stop.
    Stop(PreviewState),
}

/// Decides what follows a message: text with SVG starts a batch, a closed or
/// broken connection ends the preview, anything else is ignored.
pub fn receive(message: &SocketMessage) -> (step: SocketStep)
    ensures
        match message {
            SocketMessage::Text(text) => match svg_message(encode_utf8(text@)) {
                Some((index, total, svg)) => step matches SocketStep::Render(batch) && batch.inv()
                    && batch.total == total && batch.map() == Map::<
                    usize,
                    Seq<u8>,
                >::empty().insert(index as usize, svg),
                None => step is Wait,
            },
            SocketMessage::Other => step is Wait,
            SocketMessage::Closed => step matches SocketStep::Stop(
                PreviewState::Disconnected { reason },
            ) && reason@ == "Server closed connection"@,
            SocketMessage::Failed(error) => step matches SocketStep::Stop(
                PreviewState::Disconnected { reason },
            ) && reason@ == "WebSocket error: "@ + error@,
        },
{
    match message {
        SocketMessage::Text(text) => match PageBatch::start(text.as_str()) {
            Some(batch) => SocketStep::Render(batch),
            None => SocketStep::Wait,
        },
        SocketMessage::Other => SocketStep::Wait,
        SocketMessage::Closed => SocketStep::Stop(
            PreviewState::Disconnected { reason: "Server closed connection".to_owned() },
        ),
        SocketMessage::Failed(error) => {
            let mut reason = "WebSocket error: ".to_owned();
            reason.append(error.as_str());
            SocketStep::Stop(PreviewState::Disconnected { reason })
        },
    }
}

/// Of two messages in a row for the same page only the last matters.
pub proof fn law_freshest_svg_wins(
    total: nat,
    pages: Map<usize, Seq<u8>>,
    index: nat,
    count: nat,
    older: Seq<u8>,
    newer: Seq<u8>,
)
    ensures
        ({
            let (t, p) = after_message(total, pages, Some((index, count, older)));
            after_message(t, p, Some((index, count, newer))) == after_message(
                total,
                pages,
                Some((index, count, newer)),
            )
        }),
{
    let (t, p) = after_message(total, pages, Some((index, count, older)));
    let twice = after_message(t, p, Some((index, count, newer)));
    let once = after_message(total, pages, Some((index, count, newer)));
    assert(twice.1 =~= once.1);
}

/// The pages of a list that has no index twice are found under their indices, and
/// nothing else is.
pub proof fn law_pages_are_found(pages: Seq<PageSvg>, k: int, index: usize)
    requires
        distinct_pages(pages),
        0 <= k < pages.len(),
    ensures
        pages_map(pages).contains_pair(pages[k].index, encode_utf8(pages[k].svg@)),
        pages_map(pages).contains_key(index) <==> indices_of(pages).contains(index),
    decreases pages.len(),
{
    lemma_found(pages, index);
    lemma_under_index(pages, k);
}

proof fn lemma_under_index(pages: Seq<PageSvg>, k: int)
    requires
        distinct_pages(pages),
        0 <= k < pages.len(),
    ensures
        pages_map(pages).contains_pair(pages[k].index, encode_utf8(pages[k].svg@)),
    decreases pages.len(),
{
    if k < pages.len() - 1 {
        assert(distinct_pages(pages.drop_last()));
        lemma_under_index(pages.drop_last(), k);
        assert(pages.drop_last()[k] == pages[k]);
        assert(pages[k].index != pages[pages.len() - 1].index);
    }
}

proof fn lemma_found(pages: Seq<PageSvg>, index: usize)
    ensures
        pages_map(pages).contains_key(index) <==> indices_of(pages).contains(index),
    decreases pages.len(),
{
    let indices = indices_of(pages);
    if pages.len() > 0 {
        let before = indices_of(pages.drop_last());
        lemma_found(pages.drop_last(), index);
        if before.contains(index) {
            let k = choose|k: int| 0 <= k < before.len() && before[k] == index;
            assert(indices[k] == index);
        }
        if indices.contains(index) {
            let k = choose|k: int| 0 <= k < indices.len() && indices[k] == index;
            if k < pages.len() - 1 {
                assert(before[k] == index);
            }
        }
        assert(indices[pages.len() - 1] == pages.last().index);
    }
}

/// A message puts its page in the batch. It leaves the other pages as they are, unless
/// it is of the first page and has another page count: then it starts over.
pub proof fn law_message_puts_its_page(
    total: nat,
    pages: Map<usize, Seq<u8>>,
    index: usize,
    count: nat,
    svg: Seq<u8>,
    other: usize,
)
    requires
        other != index,
    ensures
        ({
            let (after, collected) = after_message(
                total,
                pages,
                Some((index as nat, count, svg)),
            );
            &&& collected.contains_pair(index, svg)
            &&& index != 0 || count == total ==> after == total && collected.contains_key(other)
                == pages.contains_key(other) && (pages.contains_key(other) ==> collected[other]
                == pages[other])
            &&& index == 0 && count != total ==> after == count && !collected.contains_key(other)
        }),
        after_message(total, pages, None) == (total, pages),
{
}

/// The order by distance loses no index, and of two at the same distance the lower
/// comes first.
pub proof fn law_order_loses_nothing(indices: Seq<usize>, from: usize, a: int, b: int)
    requires
        0 <= a < b < indices.len(),
    ensures
        ordered_by_distance(indices, from).len() == indices.len(),
        ordered_by_distance(indices, from).contains(indices[a]),
        apart(ordered_by_distance(indices, from)[a], from) == apart(
            ordered_by_distance(indices, from)[b],
            from,
        ) ==> ordered_by_distance(indices, from)[a] <= ordered_by_distance(indices, from)[b],
{
    let sorted = stably_sorted(indices, indices);
    lemma_sorted_items(indices, indices);
    let distances = distances_from(sorted, from);
    lemma_sorted_items(sorted, distances);
    law_stable_order(indices, indices.len());
    law_stable_order(distances, distances.len());
    let first = stable_order(indices, indices.len());
    let order = stable_order(distances, distances.len());
    let ordered = ordered_by_distance(indices, from);
    law_sort_loses_nothing(indices, indices.len(), a);
    let p = choose|p: int| 0 <= p < first.len() && first[p] == a;
    law_sort_loses_nothing(distances, distances.len(), p);
    let q = choose|q: int| 0 <= q < order.len() && order[q] == p;
    assert(ordered[q] == sorted[p]);
    assert(sorted[p] == indices[a]);
    assert(ordered[a] == sorted[order[a]]);
    assert(ordered[b] == sorted[order[b]]);
    if distances[order[a]] == distances[order[b]] {
        assert(order[a] < order[b]);
        assert(sorted[order[a]] == indices[first[order[a]]]);
        assert(sorted[order[b]] == indices[first[order[b]]]);
    }
}

/// An image that arrives is shown at its index, the other pages stay as they are, and
/// there are as many as the document has.
pub proof fn law_arriving_image(
    pages: Seq<Option<Arc<RenderImage>>>,
    total: nat,
    index: int,
    image: Arc<RenderImage>,
    i: int,
)
    requires
        0 <= i < total,
    ensures
        with_page(pages, total, index, image).len() == total,
        i == index ==> with_page(pages, total, index, image)[i] == Some(image),
        i != index && i < pages.len() ==> with_page(pages, total, index, image)[i] == pages[i],
        i != index && i >= pages.len() ==> with_page(pages, total, index, image)[i] is None,
{
}

} // verus!
