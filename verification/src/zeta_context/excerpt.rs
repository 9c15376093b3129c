//! Selection of an excerpt around the cursor.
//!
//! An excerpt grows from the cursor's line, or from a syntax node around it, as
//! long as it fits a window together with the signatures of the items around
//! it. Where it can grow both ways, a caller's function decides which of the
//! two comes closer to the wanted share of bytes before the cursor.
use crate::text::{
    lemma_boundary_in_range, lemma_line_boundaries, lemma_line_end, lemma_line_end_monotonic, lemma_line_start,
    lemma_line_start_monotonic, line_end, line_start, NEWLINE,
};
use crate::zeta_context::identifier_index::signature_fits;
use crate::zeta_context::outline::{
    describes_item, id_after_outline, is_outline, outline_order, query_matches,
    query_outline_items, usable, OutlineId, OutlineItem,
};
use crate::zeta_context::syntax::{
    are_neighbours, as_position, first_child_for_byte, follows_sibling, is_below, is_child,
    law_child_for_byte, law_siblings_are_neighbours, lemma_previous_sibling,
    lemma_siblings, lemma_subtree_end, next_sibling, previous_sibling, sibling_for_byte,
    steps_down, subtree_end, SyntaxNode, SyntaxTree,
};
use crate::zeta_context::treesitter_util::{
    expand_range_to_line_boundaries, line_end_from_offset, line_start_from_offset,
    range_intersection, range_is_superset_of, range_size,
};
use crate::zeta_context::zed_code::Language;
use std::ops::Range;
use vstd::prelude::*;
use vstd::string::*;
use vstd::utf8::*;

verus! {

/// Limits on excerpts.
#[derive(Clone, Copy, Debug, PartialEq, Eq, Structural)]
pub struct ExcerptOptions {
    /// Limit for the number of bytes in the window around the cursor.
    pub window_max_bytes: usize,
}

impl Default for ExcerptOptions {
    fn default() -> (options: Self)
        ensures
            options.window_max_bytes == 4096,
    {
        ExcerptOptions { window_max_bytes: 4096 }
    }
}

/// An excerpt and the signatures of the items around it.
#[derive(Debug)]
pub struct ExcerptRanges {
    pub excerpt_range: Range<usize>,
    pub parent_signature_ranges: Vec<Range<usize>>,
}

/// The number of bytes in a range, zero for one that ends before it starts.
pub open spec fn range_len(range: Range<usize>) -> nat {
    if range.start <= range.end {
        (range.end - range.start) as nat
    } else {
        0
    }
}

/// The number of bytes in several ranges.
pub open spec fn ranges_len(ranges: Seq<Range<usize>>) -> nat
    decreases ranges.len(),
{
    if ranges.len() == 0 {
        0
    } else {
        ranges_len(ranges.drop_last()) + range_len(ranges.last())
    }
}

proof fn lemma_ranges_len(ranges: Seq<Range<usize>>, n: int)
    requires
        0 <= n <= ranges.len(),
    ensures
        ranges_len(ranges.take(n)) <= ranges_len(ranges),
    decreases ranges.len(),
{
    if n == ranges.len() {
        assert(ranges.take(n) =~= ranges);
    } else {
        assert(ranges.drop_last().take(n) =~= ranges.take(n));
        lemma_ranges_len(ranges.drop_last(), n);
    }
}

/// The number of bytes in a range.
fn len_of(range: &Range<usize>) -> (n: usize)
    ensures
        n == range_len(*range),
{
    if range.start <= range.end {
        range.end - range.start
    } else {
        0
    }
}

impl ExcerptRanges {
    /// The number of bytes of the excerpt and of the signatures.
    pub open spec fn total_size(&self) -> nat {
        range_len(self.excerpt_range) + ranges_len(self.parent_signature_ranges@)
    }

    pub fn size(&self) -> (n: usize)
        requires
            self.total_size() <= usize::MAX,
        ensures
            n == self.total_size(),
    {
        let ghost ranges = self.parent_signature_ranges@;
        let mut n: usize = len_of(&self.excerpt_range);
        let mut i: usize = 0;
        while i < self.parent_signature_ranges.len()
            invariant
                ranges == self.parent_signature_ranges@,
                i <= ranges.len(),
                n == range_len(self.excerpt_range) + ranges_len(ranges.take(i as int)),
                self.total_size() <= usize::MAX,
            decreases ranges.len() - i,
        {
            assert(ranges.take(i + 1).drop_last() =~= ranges.take(i as int));
            proof {
                lemma_ranges_len(ranges, i + 1);
            }
            n = n + len_of(&self.parent_signature_ranges[i]);
            i = i + 1;
        }
        assert(ranges.take(i as int) =~= ranges);
        n
    }
}

/// Two ways to grow an excerpt: how many bytes each has before the cursor and
/// in all.
#[derive(Clone, Copy, Debug)]
pub struct ExpansionChoice {
    pub forward_before: usize,
    pub forward_size: usize,
    pub backward_before: usize,
    pub backward_size: usize,
}

/// The bytes of a range within the text, or of one that covers it.
pub open spec fn covers(outer: (int, int), inner: (int, int)) -> bool {
    outer.0 <= inner.0 && outer.1 >= inner.1
}

/// The lines of an item's signature.
pub open spec fn signature_lines(bytes: Seq<u8>, item: OutlineItem) -> (int, int) {
    (
        line_start(bytes, item.signature_range.start as int),
        line_end(bytes, item.signature_range.end as int),
    )
}

/// Whether an item encloses a range.
pub open spec fn encloses(item: OutlineItem, range: (int, int)) -> bool {
    covers((item.item_range.start as int, item.item_range.end as int), range)
}

/// How many bytes two ranges share.
pub open spec fn shared(a: (int, int), b: (int, int)) -> int {
    let start = if a.0 < b.0 {
        b.0
    } else {
        a.0
    };
    let end = if a.1 < b.1 {
        a.1
    } else {
        b.1
    };
    if start < end {
        end - start
    } else {
        0
    }
}

/// How many bytes of an item's signature lie outside an excerpt that the item
/// encloses.
pub open spec fn signature_cost(bytes: Seq<u8>, item: OutlineItem, range: (int, int)) -> int {
    if encloses(item, range) {
        let lines = signature_lines(bytes, item);
        lines.1 - lines.0 - shared(lines, range)
    } else {
        0
    }
}

/// How many bytes the signatures around an excerpt add to it.
pub open spec fn signatures_cost(
    bytes: Seq<u8>,
    items: Seq<OutlineItem>,
    range: (int, int),
) -> int
    decreases items.len(),
{
    if items.len() == 0 {
        0
    } else {
        signatures_cost(bytes, items.drop_last(), range) + signature_cost(
            bytes,
            items.last(),
            range,
        )
    }
}

/// The lines of the signatures of the items that enclose an excerpt.
pub open spec fn enclosing_signatures(
    bytes: Seq<u8>,
    items: Seq<OutlineItem>,
    range: (int, int),
) -> Seq<(int, int)>
    decreases items.len(),
{
    if items.len() == 0 {
        Seq::empty()
    } else {
        let before = enclosing_signatures(bytes, items.drop_last(), range);
        if encloses(items.last(), range) {
            before.push(signature_lines(bytes, items.last()))
        } else {
            before
        }
    }
}

/// How many bytes of signature lines lie outside an excerpt.
pub open spec fn added_by(signatures: Seq<Range<usize>>, range: (int, int)) -> int
    decreases signatures.len(),
{
    if signatures.len() == 0 {
        0
    } else {
        let lines = pair(signatures.last());
        added_by(signatures.drop_last(), range) + lines.1 - lines.0 - shared(lines, range)
    }
}

/// What the signatures of an excerpt add to it is what they cost.
proof fn lemma_added_by(
    bytes: Seq<u8>,
    items: Seq<OutlineItem>,
    range: (int, int),
    signatures: Seq<Range<usize>>,
)
    requires
        pairs(signatures) == enclosing_signatures(bytes, items, range),
    ensures
        added_by(signatures, range) == signatures_cost(bytes, items, range),
    decreases items.len(),
{
    assert(pairs(signatures).len() == signatures.len());
    if items.len() > 0 {
        let before = enclosing_signatures(bytes, items.drop_last(), range);
        if encloses(items.last(), range) {
            assert(pairs(signatures).last() == signature_lines(bytes, items.last()));
            assert(pairs(signatures.drop_last()) =~= before) by {
                assert(pairs(signatures).drop_last() =~= before);
            }
            lemma_added_by(bytes, items.drop_last(), range, signatures.drop_last());
        } else {
            lemma_added_by(bytes, items.drop_last(), range, signatures);
        }
    }
}

/// A range as a pair.
pub open spec fn pair(range: Range<usize>) -> (int, int) {
    (range.start as int, range.end as int)
}

/// Ranges as pairs.
pub open spec fn pairs(ranges: Seq<Range<usize>>) -> Seq<(int, int)> {
    ranges.map_values(|range: Range<usize>| pair(range))
}

/// Whether the signatures of all items lie in the text.
pub open spec fn items_fit(items: Seq<OutlineItem>, bytes: Seq<u8>) -> bool {
    forall|k: int| 0 <= k < items.len() ==> signature_fits(#[trigger] items[k], bytes)
}

/// An excerpt that grows needs no more for the signatures around it.
pub proof fn lemma_signatures_cost_antitone(
    bytes: Seq<u8>,
    items: Seq<OutlineItem>,
    inner: (int, int),
    outer: (int, int),
)
    requires
        covers(outer, inner),
        items_fit(items, bytes),
        valid_utf8(bytes),
    ensures
        0 <= signatures_cost(bytes, items, outer) <= signatures_cost(bytes, items, inner),
    decreases items.len(),
{
    if items.len() > 0 {
        let shorter = items.drop_last();
        assert forall|k: int| 0 <= k < shorter.len() implies signature_fits(
            #[trigger] shorter[k],
            bytes,
        ) by {
            assert(signature_fits(items[k], bytes));
        }
        lemma_signatures_cost_antitone(bytes, shorter, inner, outer);
        let item = items.last();
        assert(signature_fits(items[items.len() - 1], bytes));
        lemma_line_start(bytes, item.signature_range.start as int);
        lemma_line_end(bytes, item.signature_range.end as int);
    }
}

/// Whether a grown excerpt exists and fits the window.
pub open spec fn candidate_fits(candidate: Option<(int, int)>, signatures: int, max: int) -> bool {
    candidate matches Some(range) && range.1 - range.0 + signatures <= max
}

/// The choice between two grown excerpts.
pub open spec fn choice_between(
    cursor: int,
    forward: (int, int),
    backward: (int, int),
) -> ExpansionChoice {
    ExpansionChoice {
        forward_before: (cursor - forward.0) as usize,
        forward_size: (forward.1 - forward.0) as usize,
        backward_before: (cursor - backward.0) as usize,
        backward_size: (backward.1 - backward.0) as usize,
    }
}

/// Whether `go` is the way to grow: forward (`true`) or backward where only
/// that fits, the one that `prefer_forward` picks where both fit, and none
/// where neither does.
pub open spec fn is_direction<F: Fn(ExpansionChoice) -> bool>(
    prefer_forward: F,
    cursor: int,
    max: int,
    signatures: int,
    forward: Option<(int, int)>,
    backward: Option<(int, int)>,
    go: Option<bool>,
) -> bool {
    let forward_fits = candidate_fits(forward, signatures, max);
    let backward_fits = candidate_fits(backward, signatures, max);
    match go {
        None => !forward_fits && !backward_fits,
        Some(true) => forward_fits && (backward_fits ==> prefer_forward.ensures(
            (choice_between(cursor, forward->0, backward->0),),
            true,
        )),
        Some(false) => backward_fits && (forward_fits ==> prefer_forward.ensures(
            (choice_between(cursor, forward->0, backward->0),),
            false,
        )),
    }
}

/// The excerpt with the next line, if there is one.
pub open spec fn line_forward(bytes: Seq<u8>, range: (int, int)) -> Option<(int, int)> {
    if line_end(bytes, range.1) < bytes.len() {
        Some((range.0, line_end(bytes, range.1) + 1))
    } else {
        None
    }
}

/// The excerpt with the line before it, if there is one.
pub open spec fn line_backward(bytes: Seq<u8>, range: (int, int)) -> Option<(int, int)> {
    let start = line_start(bytes, range.0);
    if start > 0 {
        Some((line_start(bytes, start - 1), range.1))
    } else {
        None
    }
}

/// A parsed text, a cursor in it and the limits on the excerpt.
pub struct ExcerptRangesInput<'a> {
    pub language: &'a Language,
    pub tree: &'a SyntaxTree,
    pub source: &'a str,
    pub cursor_offset: usize,
    pub options: &'a ExcerptOptions,
}

impl ExcerptRangesInput<'_> {
    /// Whether the tree is one over the text and the cursor stands between two
    /// characters of it.
    pub open spec fn fits(&self) -> bool {
        &&& self.tree.is_over(self.source)
        &&& is_char_boundary(self.bytes(), self.cursor_offset as int)
    }

    pub open spec fn bytes(&self) -> Seq<u8> {
        self.source.spec_bytes()
    }

    pub open spec fn max(&self) -> int {
        self.options.window_max_bytes as int
    }

    /// The line of the cursor.
    pub open spec fn cursor_line(&self) -> (int, int) {
        (
            line_start(self.bytes(), self.cursor_offset as int),
            line_end(self.bytes(), self.cursor_offset as int),
        )
    }

    /// Whether an excerpt together with the signatures fits the window.
    fn excerpt_range_qualifies(&self, range: &Range<usize>, signatures_size: u128) -> (r: bool)
        requires
            range.start <= range.end,
        ensures
            r == (range.end - range.start + signatures_size <= self.options.window_max_bytes),
    {
        let size: usize = range.end - range.start;
        size <= self.options.window_max_bytes && signatures_size <= (
        self.options.window_max_bytes - size) as u128
    }

    /// Decides how to grow an excerpt. Returns `None` if neither range fits in
    /// `window_max_bytes`, `true` if only `forward` fits or if it is preferred,
    /// and otherwise `false`.
    pub fn is_better_excerpt_range<F: Fn(ExpansionChoice) -> bool>(
        &self,
        forward: &Option<Range<usize>>,
        backward: &Option<Range<usize>>,
        signatures_size: u128,
        prefer_forward: &F,
    ) -> (go: Option<bool>)
        requires
            forward matches Some(r) ==> r.start <= r.end && r.start <= self.cursor_offset,
            backward matches Some(r) ==> r.start <= r.end && r.start <= self.cursor_offset,
            forall|choice: ExpansionChoice| #[trigger] prefer_forward.requires((choice,)),
        ensures
            is_direction(
                *prefer_forward,
                self.cursor_offset as int,
                self.max(),
                signatures_size as int,
                pair_of(*forward),
                pair_of(*backward),
                go,
            ),
    {
        let forward_fits = match forward {
            Some(range) => self.excerpt_range_qualifies(range, signatures_size),
            None => false,
        };
        let backward_fits = match backward {
            Some(range) => self.excerpt_range_qualifies(range, signatures_size),
            None => false,
        };
        match (forward, backward) {
            (Some(forward), Some(backward)) => {
                if forward_fits && backward_fits {
                    let choice = ExpansionChoice {
                        forward_before: self.cursor_offset - forward.start,
                        forward_size: forward.end - forward.start,
                        backward_before: self.cursor_offset - backward.start,
                        backward_size: backward.end - backward.start,
                    };
                    return Some(prefer_forward(choice));
                }
            },
            _ => {},
        }
        if forward_fits {
            Some(true)
        } else if backward_fits {
            Some(false)
        } else {
            None
        }
    }
}

impl ExcerptRangesInput<'_> {
    /// The lines of the signatures of the items that enclose an excerpt.
    fn signature_offset_ranges(
        &self,
        items: &Vec<OutlineItem>,
        excerpt_range: &Range<usize>,
    ) -> (ranges: Vec<Range<usize>>)
        requires
            items_fit(items@, self.bytes()),
        ensures
            pairs(ranges@) == enclosing_signatures(self.bytes(), items@, pair(*excerpt_range)),
    {
        let mut ranges: Vec<Range<usize>> = Vec::new();
        let mut k: usize = 0;
        assert(items@.take(0) =~= Seq::<OutlineItem>::empty());
        assert(pairs(ranges@) =~= Seq::<(int, int)>::empty());
        while k < items.len()
            invariant
                k <= items@.len(),
                items_fit(items@, self.bytes()),
                pairs(ranges@) == enclosing_signatures(
                    self.bytes(),
                    items@.take(k as int),
                    pair(*excerpt_range),
                ),
            decreases items@.len() - k,
        {
            let item = &items[k];
            assert(items@.take(k + 1).drop_last() =~= items@.take(k as int));
            assert(signature_fits(items@[k as int], self.bytes()));
            if range_is_superset_of(&item.item_range, excerpt_range) {
                let ghost before = pairs(ranges@);
                let signature = item.signature_range.start..item.signature_range.end;
                let lines = expand_range_to_line_boundaries(self.source, signature);
                let ghost added = pair(lines);
                ranges.push(lines);
                assert(pairs(ranges@) =~= before.push(added));
            }
            k = k + 1;
        }
        assert(items@.take(k as int) =~= items@);
        ranges
    }

    /// How many bytes the signatures around an excerpt add to it.
    fn signatures_size(&self, items: &Vec<OutlineItem>, excerpt_range: &Range<usize>) -> (n: u128)
        requires
            items_fit(items@, self.bytes()),
        ensures
            n == signatures_cost(self.bytes(), items@, pair(*excerpt_range)),
    {
        let ghost range = pair(*excerpt_range);
        let total: usize = items.len();
        let mut n: u128 = 0;
        let mut k: usize = 0;
        assert(items@.take(0) =~= Seq::<OutlineItem>::empty());
        while k < items.len()
            invariant
                k <= items@.len(),
                total == items@.len(),
                range == pair(*excerpt_range),
                items_fit(items@, self.bytes()),
                n == signatures_cost(self.bytes(), items@.take(k as int), range),
                n <= k * usize::MAX,
            decreases items@.len() - k,
        {
            let item = &items[k];
            assert(items@.take(k + 1).drop_last() =~= items@.take(k as int));
            assert(signature_fits(items@[k as int], self.bytes()));
            assert((k + 1) * usize::MAX == k * usize::MAX + usize::MAX) by (nonlinear_arith);
            assert(k * usize::MAX <= usize::MAX * usize::MAX) by (nonlinear_arith)
                requires
                    k <= usize::MAX,
            ;
            assert(usize::MAX * usize::MAX + usize::MAX <= u128::MAX) by (nonlinear_arith)
                requires
                    usize::MAX <= 0xffff_ffff_ffff_ffff,
            ;
            if range_is_superset_of(&item.item_range, excerpt_range) {
                let signature = item.signature_range.start..item.signature_range.end;
                let lines = expand_range_to_line_boundaries(self.source, signature);
                proof {
                    lemma_line_start(self.bytes(), item.signature_range.start as int);
                    lemma_line_end(self.bytes(), item.signature_range.end as int);
                }
                let size: usize = lines.end - lines.start;
                let cost: usize = match range_intersection(&lines, excerpt_range) {
                    Some(intersection) => {
                        assert(intersection.end - intersection.start == shared(
                            pair(lines),
                            range,
                        ));
                        size - range_size(intersection)
                    },
                    None => size,
                };
                n = n + cost as u128;
            }
            k = k + 1;
        }
        assert(items@.take(k as int) =~= items@);
        n
    }

    /// How the excerpt `range` may grow by a line, and into what.
    pub open spec fn line_step<F: Fn(ExpansionChoice) -> bool>(
        &self,
        items: Seq<OutlineItem>,
        prefer_forward: F,
        range: (int, int),
        go: Option<bool>,
    ) -> bool {
        is_direction(
            prefer_forward,
            self.cursor_offset as int,
            self.max(),
            signatures_cost(self.bytes(), items, range),
            line_forward(self.bytes(), range),
            line_backward(self.bytes(), range),
            go,
        )
    }

    /// Whether an excerpt grows into the next of two by one line.
    pub open spec fn grows_by_line<F: Fn(ExpansionChoice) -> bool>(
        &self,
        items: Seq<OutlineItem>,
        prefer_forward: F,
        range: (int, int),
        next: (int, int),
    ) -> bool {
        ||| self.line_step(items, prefer_forward, range, Some(true)) && Some(next)
            == line_forward(self.bytes(), range)
        ||| self.line_step(items, prefer_forward, range, Some(false)) && Some(next)
            == line_backward(self.bytes(), range)
    }

    /// Whether the excerpts of `chain` grow from `start` line by line until
    /// neither way fits.
    pub open spec fn line_growth<F: Fn(ExpansionChoice) -> bool>(
        &self,
        items: Seq<OutlineItem>,
        prefer_forward: F,
        start: (int, int),
        chain: Seq<(int, int)>,
    ) -> bool {
        &&& chain.len() > 0
        &&& chain[0] == start
        &&& forall|k: int|
            0 <= k < chain.len() - 1 ==> self.grows_by_line(
                items,
                prefer_forward,
                #[trigger] chain[k],
                chain[k + 1],
            )
        &&& self.line_step(items, prefer_forward, chain.last(), None)
    }

    /// Whether `r` is the excerpt `range` with the signatures around it.
    pub open spec fn is_excerpt(
        &self,
        r: ExcerptRanges,
        items: Seq<OutlineItem>,
        range: (int, int),
    ) -> bool {
        &&& pair(r.excerpt_range) == range
        &&& pairs(r.parent_signature_ranges@) == enclosing_signatures(self.bytes(), items, range)
    }

    /// Grows the cursor's line by lines. Returns `None` if the line alone does
    /// not fit with the signatures around it.
    pub fn select_via_lines<F: Fn(ExpansionChoice) -> bool>(
        &self,
        items: &Vec<OutlineItem>,
        prefer_forward: &F,
    ) -> (r: Option<ExcerptRanges>)
        requires
            self.fits(),
            items_fit(items@, self.bytes()),
            forall|choice: ExpansionChoice| #[trigger] prefer_forward.requires((choice,)),
        ensures
            match r {
                Some(excerpt) => {
                    let line = self.cursor_line();
                    &&& line.1 - line.0 + signatures_cost(self.bytes(), items@, line) <= self.max()
                    &&& exists|chain: Seq<(int, int)>|
                        {
                            &&& #[trigger] self.line_growth(items@, *prefer_forward, line, chain)
                            &&& self.is_excerpt(excerpt, items@, chain.last())
                        }
                    &&& covers(pair(excerpt.excerpt_range), line)
                },
                None => {
                    let line = self.cursor_line();
                    line.1 - line.0 + signatures_cost(self.bytes(), items@, line) > self.max()
                },
            },
    {
        let ghost bytes = self.bytes();
        let ghost line = self.cursor_line();
        proof {
            encode_utf8_valid_utf8(self.source@);
        }
        let at_cursor = self.cursor_offset..self.cursor_offset;
        let mut excerpt_range = expand_range_to_line_boundaries(self.source, at_cursor);
        let signatures_size = self.signatures_size(items, &excerpt_range);
        if !self.excerpt_range_qualifies(&excerpt_range, signatures_size) {
            return None;
        }
        let ghost mut chain: Seq<(int, int)> = seq![line];
        loop
            invariant_except_break
                chain.last() == pair(excerpt_range),
            invariant
                self.fits(),
                bytes == self.bytes(),
                valid_utf8(bytes),
                line == self.cursor_line(),
                items_fit(items@, bytes),
                forall|choice: ExpansionChoice| #[trigger] prefer_forward.requires((choice,)),
                chain.len() > 0,
                chain[0] == line,
                excerpt_range.start <= self.cursor_offset <= excerpt_range.end <= bytes.len(),
                covers(pair(excerpt_range), line),
                is_char_boundary(bytes, excerpt_range.start as int),
                is_char_boundary(bytes, excerpt_range.end as int),
                chain.last() == pair(excerpt_range),
                forall|k: int|
                    0 <= k < chain.len() - 1 ==> self.grows_by_line(
                        items@,
                        *prefer_forward,
                        #[trigger] chain[k],
                        chain[k + 1],
                    ),
            ensures
                self.line_growth(items@, *prefer_forward, line, chain),
                chain.last() == pair(excerpt_range),
            decreases bytes.len() - excerpt_range.end + excerpt_range.start,
        {
            let ghost range = pair(excerpt_range);
            proof {
                lemma_line_end(bytes, excerpt_range.end as int);
                lemma_line_start(bytes, excerpt_range.start as int);
                lemma_line_boundaries(bytes, excerpt_range.end as int);
                lemma_line_boundaries(bytes, excerpt_range.start as int);
            }
            let end = line_end_from_offset(self.source, excerpt_range.end);
            let forward: Option<Range<usize>> = if end < self.source.as_bytes().len() {
                proof {
                    crate::text::lemma_boundary_after_ascii(bytes, end as int);
                }
                Some(excerpt_range.start..end + 1)
            } else {
                None
            };
            let start = line_start_from_offset(self.source, excerpt_range.start);
            let backward: Option<Range<usize>> = if start > 0 {
                proof {
                    lemma_line_start(bytes, start - 1);
                    lemma_line_boundaries(bytes, start - 1);
                    crate::text::lemma_boundary_after_ascii(bytes, start - 1);
                }
                Some(line_start_from_offset(self.source, start - 1)..excerpt_range.end)
            } else {
                None
            };
            let signatures_size = self.signatures_size(items, &excerpt_range);
            let go = self.is_better_excerpt_range(
                &forward,
                &backward,
                signatures_size,
                prefer_forward,
            );
            assert(pair_of(forward) == line_forward(bytes, range));
            assert(pair_of(backward) == line_backward(bytes, range));
            assert(self.line_step(items@, *prefer_forward, range, go));
            let next = match go {
                Some(true) => forward,
                Some(false) => backward,
                None => None,
            };
            match next {
                Some(next) => {
                    let ghost longer = chain.push(pair(next));
                    assert forall|k: int| 0 <= k < longer.len() - 1 implies self.grows_by_line(
                        items@,
                        *prefer_forward,
                        #[trigger] longer[k],
                        longer[k + 1],
                    ) by {
                        if k < chain.len() - 1 {
                            assert(longer[k] == chain[k] && longer[k + 1] == chain[k + 1]);
                        } else {
                            assert(longer[k] == range);
                        }
                    }
                    proof {
                        chain = longer;
                    }
                    excerpt_range = next;
                },
                None => {
                    break;
                },
            }
        }
        let parent_signature_ranges = self.signature_offset_ranges(items, &excerpt_range);
        Some(ExcerptRanges { excerpt_range, parent_signature_ranges })
    }
}

/// An excerpt that grows over siblings: its range and the siblings after and
/// before it that it has not reached.
pub struct SiblingGrowth {
    pub range: (int, int),
    pub forward: Option<int>,
    pub backward: Option<int>,
}

/// A child found for a byte lies in the tree after its parent.
proof fn lemma_first_child_for_byte(nodes: Seq<SyntaxNode>, i: int, byte: int)
    requires
        0 <= i < nodes.len(),
    ensures
        first_child_for_byte(nodes, i, byte) matches Some(c) ==> i < c < nodes.len(),
{
    lemma_subtree_end(nodes, i);
    lemma_sibling_for_byte(nodes, i + 1, subtree_end(nodes, i), byte);
}

proof fn lemma_sibling_for_byte(nodes: Seq<SyntaxNode>, c: int, end: int, byte: int)
    requires
        0 <= c,
        end <= nodes.len(),
    ensures
        sibling_for_byte(nodes, c, end, byte) matches Some(d) ==> c <= d < end,
    decreases nodes.len() - c,
{
    if c < end && nodes[c].end_byte <= byte {
        lemma_subtree_end(nodes, c);
        lemma_sibling_for_byte(nodes, subtree_end(nodes, c), end, byte);
    }
}

impl ExcerptRangesInput<'_> {
    /// The lines of the node at `i`.
    pub open spec fn node_lines(&self, i: int) -> (int, int) {
        (
            line_start(self.bytes(), self.tree.nodes@[i].start_byte as int),
            line_end(self.bytes(), self.tree.nodes@[i].end_byte as int),
        )
    }

    /// The first node, going down from `i` towards the cursor's line, whose
    /// lines fit the window with the signatures around them. There is none
    /// below a node whose lines do not cover the cursor's line.
    pub open spec fn fitting_node(&self, items: Seq<OutlineItem>, i: int) -> Option<int>
        decreases self.tree.nodes@.len() - i,
        via Self::fitting_node_decreases
    {
        if i < 0 || i >= self.tree.nodes@.len() {
            None
        } else {
            let lines = self.node_lines(i);
            if !covers(lines, self.cursor_line()) {
                None
            } else if lines.1 - lines.0 + signatures_cost(self.bytes(), items, lines)
                <= self.max() {
                Some(i)
            } else {
                match first_child_for_byte(self.tree.nodes@, i, self.cursor_line().0) {
                    Some(c) => self.fitting_node(items, c),
                    None => None,
                }
            }
        }
    }

    #[via_fn]
    proof fn fitting_node_decreases(&self, items: Seq<OutlineItem>, i: int) {
        if 0 <= i < self.tree.nodes@.len() {
            lemma_first_child_for_byte(self.tree.nodes@, i, self.cursor_line().0);
        }
    }

    /// The excerpt grown to the end of the next sibling's lines.
    pub open spec fn sibling_forward(&self, growth: SiblingGrowth) -> Option<(int, int)> {
        match growth.forward {
            Some(i) => Some(
                (
                    line_start(self.bytes(), growth.range.0),
                    line_end(self.bytes(), self.tree.nodes@[i].end_byte as int),
                ),
            ),
            None => None,
        }
    }

    /// The excerpt grown to the start of the previous sibling's lines.
    pub open spec fn sibling_backward(&self, growth: SiblingGrowth) -> Option<(int, int)> {
        match growth.backward {
            Some(i) => Some(
                (
                    line_start(self.bytes(), self.tree.nodes@[i].start_byte as int),
                    line_end(self.bytes(), growth.range.1),
                ),
            ),
            None => None,
        }
    }

    /// Which way an excerpt may grow over a sibling.
    pub open spec fn sibling_step<F: Fn(ExpansionChoice) -> bool>(
        &self,
        signatures: int,
        prefer_forward: F,
        growth: SiblingGrowth,
        go: Option<bool>,
    ) -> bool {
        is_direction(
            prefer_forward,
            self.cursor_offset as int,
            self.max(),
            signatures,
            self.sibling_forward(growth),
            self.sibling_backward(growth),
            go,
        )
    }

    /// Whether an excerpt grows into the next of two over one sibling.
    pub open spec fn grows_by_sibling<F: Fn(ExpansionChoice) -> bool>(
        &self,
        signatures: int,
        prefer_forward: F,
        growth: SiblingGrowth,
        next: SiblingGrowth,
    ) -> bool {
        ||| {
            &&& self.sibling_step(signatures, prefer_forward, growth, Some(true))
            &&& Some(next.range) == self.sibling_forward(growth)
            &&& next.forward == next_sibling(self.tree.nodes@, growth.forward->0)
            &&& next.backward == growth.backward
        }
        ||| {
            &&& self.sibling_step(signatures, prefer_forward, growth, Some(false))
            &&& Some(next.range) == self.sibling_backward(growth)
            &&& next.forward == growth.forward
            &&& next.backward == previous_sibling(self.tree.nodes@, growth.backward->0)
        }
    }

    /// Whether the excerpts of `chain` grow from the lines of the node at `i`
    /// over its siblings until neither way fits.
    pub open spec fn sibling_growth<F: Fn(ExpansionChoice) -> bool>(
        &self,
        signatures: int,
        prefer_forward: F,
        i: int,
        chain: Seq<SiblingGrowth>,
    ) -> bool {
        &&& chain.len() > 0
        &&& chain[0] == SiblingGrowth {
            range: self.node_lines(i),
            forward: next_sibling(self.tree.nodes@, i),
            backward: previous_sibling(self.tree.nodes@, i),
        }
        &&& self.sibling_steps(signatures, prefer_forward, chain)
        &&& self.sibling_step(signatures, prefer_forward, chain.last(), None)
    }

    /// Whether each excerpt of `chain` grows into the next.
    #[verifier::opaque]
    pub open spec fn sibling_steps<F: Fn(ExpansionChoice) -> bool>(
        &self,
        signatures: int,
        prefer_forward: F,
        chain: Seq<SiblingGrowth>,
    ) -> bool {
        forall|k: int|
            0 <= k < chain.len() - 1 ==> self.grows_by_sibling(
                signatures,
                prefer_forward,
                #[trigger] chain[k],
                chain[k + 1],
            )
    }

    /// One more step makes a longer chain.
    proof fn lemma_push_step<F: Fn(ExpansionChoice) -> bool>(
        &self,
        signatures: int,
        prefer_forward: F,
        chain: Seq<SiblingGrowth>,
        next: SiblingGrowth,
    )
        requires
            chain.len() > 0,
            self.sibling_steps(signatures, prefer_forward, chain),
            self.grows_by_sibling(signatures, prefer_forward, chain.last(), next),
        ensures
            self.sibling_steps(signatures, prefer_forward, chain.push(next)),
    {
        reveal(ExcerptRangesInput::sibling_steps);
        let longer = chain.push(next);
        assert forall|k: int| 0 <= k < longer.len() - 1 implies self.grows_by_sibling(
            signatures,
            prefer_forward,
            #[trigger] longer[k],
            longer[k + 1],
        ) by {
            if k < chain.len() - 1 {
                assert(longer[k] == chain[k] && longer[k + 1] == chain[k + 1]);
            } else {
                assert(longer[k] == chain.last());
            }
        }
    }

    /// The excerpt that reaches to the end of a later sibling.
    fn forward_range(&self, start: usize, last: usize, j: usize) -> (r: Range<usize>)
        requires
            self.fits(),
            last < self.tree.nodes@.len(),
            next_sibling(self.tree.nodes@, last as int) == Some(j as int),
            j < self.tree.nodes@.len(),
            start <= self.tree.nodes@[last as int].start_byte,
            is_char_boundary(self.bytes(), start as int),
        ensures
            r.start == line_start(self.bytes(), start as int),
            r.end == line_end(self.bytes(), self.tree.nodes@[j as int].end_byte as int),
            r.start <= start,
            r.start <= r.end <= self.bytes().len(),
            line_end(self.bytes(), self.tree.nodes@[last as int].end_byte as int) <= r.end,
            is_char_boundary(self.bytes(), r.start as int),
            is_char_boundary(self.bytes(), r.end as int),
    {
        let ghost nodes = self.tree.nodes@;
        let next = self.tree.nodes[j];
        proof {
            encode_utf8_valid_utf8(self.source@);
            assert(nodes[j as int] == next);
            lemma_siblings(nodes, last as int);
            assert(follows_sibling(nodes, j as int));
            assert(nodes[last as int].start_byte <= nodes[last as int].end_byte);
            lemma_line_end_monotonic(
                self.bytes(),
                nodes[last as int].end_byte as int,
                next.end_byte as int,
            );
        }
        expand_range_to_line_boundaries(self.source, start..next.end_byte)
    }

    /// The excerpt that reaches back to the start of an earlier sibling.
    fn backward_range(&self, end: usize, first: usize, j: usize) -> (r: Range<usize>)
        requires
            self.fits(),
            j < first < self.tree.nodes@.len(),
            self.tree.nodes@[first as int].start_byte <= end,
            is_char_boundary(self.bytes(), end as int),
        ensures
            r.start == line_start(self.bytes(), self.tree.nodes@[j as int].start_byte as int),
            r.end == line_end(self.bytes(), end as int),
            r.start <= r.end <= self.bytes().len(),
            end <= r.end,
            r.start <= line_start(
                self.bytes(),
                self.tree.nodes@[first as int].start_byte as int,
            ),
            is_char_boundary(self.bytes(), r.start as int),
            is_char_boundary(self.bytes(), r.end as int),
    {
        let ghost nodes = self.tree.nodes@;
        let previous = self.tree.nodes[j];
        proof {
            encode_utf8_valid_utf8(self.source@);
            assert(nodes[j as int] == previous);
            assert(nodes[j as int].start_byte <= nodes[first as int].start_byte);
            assert(is_char_boundary(self.bytes(), nodes[first as int].start_byte as int));
            lemma_line_start_monotonic(
                self.bytes(),
                previous.start_byte as int,
                nodes[first as int].start_byte as int,
            );
        }
        expand_range_to_line_boundaries(self.source, previous.start_byte..end)
    }

    /// Grows the lines of a node over its siblings.
    pub fn expand_to_siblings<F: Fn(ExpansionChoice) -> bool>(
        &self,
        i: usize,
        items: &Vec<OutlineItem>,
        signatures_size: u128,
        prefer_forward: &F,
    ) -> (r: ExcerptRanges)
        requires
            self.fits(),
            i < self.tree.nodes@.len(),
            covers(self.node_lines(i as int), self.cursor_line()),
            items_fit(items@, self.bytes()),
            forall|choice: ExpansionChoice| #[trigger] prefer_forward.requires((choice,)),
        ensures
            exists|chain: Seq<SiblingGrowth>|
                {
                    &&& #[trigger] self.sibling_growth(
                        signatures_size as int,
                        *prefer_forward,
                        i as int,
                        chain,
                    )
                    &&& self.is_excerpt(r, items@, chain.last().range)
                },
            covers(pair(r.excerpt_range), self.cursor_line()),
            covers(pair(r.excerpt_range), self.node_lines(i as int)),
    {
        let ghost bytes = self.bytes();
        let ghost nodes = self.tree.nodes@;
        proof {
            encode_utf8_valid_utf8(self.source@);
            lemma_line_start(bytes, self.cursor_offset as int);
            lemma_line_end(bytes, self.cursor_offset as int);
        }
        let node = self.tree.nodes[i];
        assert(nodes[i as int] == node);
        let mut excerpt_range = expand_range_to_line_boundaries(
            self.source,
            node.start_byte..node.end_byte,
        );
        let mut forward = self.tree.next_sibling(i);
        let mut backward = self.tree.previous_sibling(i);
        let ghost mut growth = SiblingGrowth {
            range: pair(excerpt_range),
            forward: next_sibling(nodes, i as int),
            backward: previous_sibling(nodes, i as int),
        };
        let ghost mut chain: Seq<SiblingGrowth> = seq![growth];
        let mut last: usize = i;
        let mut first: usize = i;
        proof {
            reveal(ExcerptRangesInput::sibling_steps);
            assert(self.sibling_steps(signatures_size as int, *prefer_forward, chain));
        }
        loop
            invariant
                self.fits(),
                bytes == self.bytes(),
                nodes == self.tree.nodes@,
                i < nodes.len(),
                forall|choice: ExpansionChoice| #[trigger] prefer_forward.requires((choice,)),
                chain.len() > 0,
                chain[0] == (SiblingGrowth {
                    range: self.node_lines(i as int),
                    forward: next_sibling(nodes, i as int),
                    backward: previous_sibling(nodes, i as int),
                }),
                growth == chain.last(),
                growth.range == pair(excerpt_range),
                growth.forward == as_position(forward),
                growth.backward == as_position(backward),
                first <= i <= last < nodes.len(),
                growth.forward == next_sibling(nodes, last as int),
                growth.backward == previous_sibling(nodes, first as int),
                excerpt_range.start == line_start(bytes, nodes[first as int].start_byte as int),
                excerpt_range.end == line_end(bytes, nodes[last as int].end_byte as int),
                excerpt_range.start <= nodes[first as int].start_byte,
                nodes[first as int].start_byte <= nodes[last as int].start_byte,
                nodes[last as int].start_byte <= excerpt_range.end,
                forward matches Some(j) ==> last < j < nodes.len(),
                backward matches Some(j) ==> j < first,
                covers(pair(excerpt_range), self.cursor_line()),
                covers(pair(excerpt_range), self.node_lines(i as int)),
                excerpt_range.start <= self.cursor_offset <= excerpt_range.end <= bytes.len(),
                is_char_boundary(bytes, excerpt_range.start as int),
                is_char_boundary(bytes, excerpt_range.end as int),
                self.sibling_steps(signatures_size as int, *prefer_forward, chain),
            ensures
                self.sibling_step(signatures_size as int, *prefer_forward, chain.last(), None),
            decreases
                    (match forward {
                        Some(j) => nodes.len() - j,
                        None => 0,
                    }) + (match backward {
                        Some(j) => j + 1,
                        None => 0,
                    }),
        {
            let forward_range: Option<Range<usize>> = match forward {
                Some(j) => Some(self.forward_range(excerpt_range.start, last, j)),
                None => None,
            };
            let backward_range: Option<Range<usize>> = match backward {
                Some(j) => Some(self.backward_range(excerpt_range.end, first, j)),
                None => None,
            };
            assert(pair_of(forward_range) == self.sibling_forward(growth));
            assert(pair_of(backward_range) == self.sibling_backward(growth));
            let go = self.is_better_excerpt_range(
                &forward_range,
                &backward_range,
                signatures_size,
                prefer_forward,
            );
            assert(self.sibling_step(signatures_size as int, *prefer_forward, growth, go));
            let ghost before = growth;
            match (go, forward, forward_range, backward, backward_range) {
                (Some(true), Some(j), Some(range), _, _) => {
                    proof {
                        assert(nodes[last as int].start_byte <= nodes[j as int].start_byte);
                        assert(nodes[j as int].start_byte <= nodes[j as int].end_byte);
                        encode_utf8_valid_utf8(self.source@);
                        lemma_line_end(bytes, nodes[j as int].end_byte as int);
                        lemma_line_start(bytes, nodes[first as int].start_byte as int);
                    }
                    last = j;
                    forward = self.tree.next_sibling(j);
                    excerpt_range = range;
                },
                (Some(false), _, _, Some(j), Some(range)) => {
                    proof {
                        assert(nodes[j as int].start_byte <= nodes[first as int].start_byte);
                        encode_utf8_valid_utf8(self.source@);
                        lemma_line_start(bytes, nodes[j as int].start_byte as int);
                        lemma_line_end(bytes, nodes[last as int].end_byte as int);
                    }
                    first = j;
                    backward = self.tree.previous_sibling(j);
                    excerpt_range = range;
                },
                _ => {
                    break;
                },
            }
            proof {
                growth = SiblingGrowth {
                    range: pair(excerpt_range),
                    forward: as_position(forward),
                    backward: as_position(backward),
                };
                assert(self.grows_by_sibling(
                    signatures_size as int,
                    *prefer_forward,
                    before,
                    growth,
                ));
                self.lemma_push_step(signatures_size as int, *prefer_forward, chain, growth);
                chain = chain.push(growth);
            }
        }
        assert(self.sibling_growth(signatures_size as int, *prefer_forward, i as int, chain));
        let parent_signature_ranges = self.signature_offset_ranges(items, &excerpt_range);
        ExcerptRanges { excerpt_range, parent_signature_ranges }
    }
}

impl ExcerptRangesInput<'_> {
    /// Whether `r` is what growing a syntax node over its siblings selects:
    /// nothing where no node fits.
    pub open spec fn selected_via_ast<F: Fn(ExpansionChoice) -> bool>(
        &self,
        items: Seq<OutlineItem>,
        prefer_forward: F,
        r: Option<ExcerptRanges>,
    ) -> bool {
        match self.fitting_node(items, 0) {
            Some(i) => {
                let signatures = signatures_cost(self.bytes(), items, self.node_lines(i));
                &&& r is Some
                &&& exists|chain: Seq<SiblingGrowth>|
                    {
                        &&& #[trigger] self.sibling_growth(signatures, prefer_forward, i, chain)
                        &&& self.is_excerpt(r->0, items, chain.last().range)
                    }
            },
            None => r is None,
        }
    }

    /// Finds the largest node around the cursor's line that fits the window
    /// and grows it over its siblings.
    pub fn select_via_ast<F: Fn(ExpansionChoice) -> bool>(
        &self,
        items: &Vec<OutlineItem>,
        prefer_forward: &F,
    ) -> (r: Option<ExcerptRanges>)
        requires
            self.fits(),
            items_fit(items@, self.bytes()),
            forall|choice: ExpansionChoice| #[trigger] prefer_forward.requires((choice,)),
        ensures
            self.selected_via_ast(items@, *prefer_forward, r),
            r matches Some(excerpt) ==> covers(pair(excerpt.excerpt_range), self.cursor_line()),
    {
        let at_cursor = self.cursor_offset..self.cursor_offset;
        let query_range = expand_range_to_line_boundaries(self.source, at_cursor);
        let mut i: usize = 0;
        loop
            invariant
                self.fits(),
                items_fit(items@, self.bytes()),
                forall|choice: ExpansionChoice| #[trigger] prefer_forward.requires((choice,)),
                pair(query_range) == self.cursor_line(),
                i < self.tree.nodes@.len(),
                self.fitting_node(items@, 0) == self.fitting_node(items@, i as int),
            decreases self.tree.nodes@.len() - i,
        {
            let node = self.tree.nodes[i];
            assert(self.tree.nodes@[i as int] == node);
            let line_range = expand_range_to_line_boundaries(
                self.source,
                node.start_byte..node.end_byte,
            );
            if !range_is_superset_of(&line_range, &query_range) {
                return None;
            }
            let signatures_size = self.signatures_size(items, &line_range);
            if self.excerpt_range_qualifies(&line_range, signatures_size) {
                assert(pair(line_range) == self.node_lines(i as int));
                assert(self.fitting_node(items@, 0) == Some(i as int));
                let excerpt = self.expand_to_siblings(i, items, signatures_size, prefer_forward);
                proof {
                    let signatures = signatures_cost(
                        self.bytes(),
                        items@,
                        self.node_lines(i as int),
                    );
                    assert(signatures == signatures_size as int);
                    let chain = choose|chain: Seq<SiblingGrowth>|
                        {
                            &&& #[trigger] self.sibling_growth(
                                signatures_size as int,
                                *prefer_forward,
                                i as int,
                                chain,
                            )
                            &&& self.is_excerpt(excerpt, items@, chain.last().range)
                        };
                    assert(self.sibling_growth(signatures, *prefer_forward, i as int, chain));
                    let found = Some(excerpt);
                    assert(self.is_excerpt(found->0, items@, chain.last().range));
                    assert(self.fitting_node(items@, 0)->0 == i as int);
                    assert(self.selected_via_ast(items@, *prefer_forward, found));
                }
                return Some(excerpt);
            }
            match self.tree.first_child_for_byte(i, query_range.start) {
                Some(c) => {
                    i = c;
                },
                None => {
                    return None;
                },
            }
        }
    }

    /// Whether `r` is the excerpt selected with a given outline: the whole text
    /// where it fits, nothing where the cursor's line does not, otherwise what
    /// the syntax nodes give or, where they give nothing, what the lines give.
    pub open spec fn selected<F: Fn(ExpansionChoice) -> bool>(
        &self,
        items: Seq<OutlineItem>,
        prefer_forward: F,
        r: Option<ExcerptRanges>,
    ) -> bool {
        let line = self.cursor_line();
        if self.bytes().len() <= self.max() {
            &&& r matches Some(excerpt)
            &&& pair(excerpt.excerpt_range) == (0int, self.bytes().len() as int)
            &&& excerpt.parent_signature_ranges@.len() == 0
        } else if line.1 - line.0 > self.max() {
            r is None
        } else if self.fitting_node(items, 0) is Some {
            self.selected_via_ast(items, prefer_forward, r)
        } else {
            match r {
                Some(excerpt) => {
                    &&& line.1 - line.0 + signatures_cost(self.bytes(), items, line) <= self.max()
                    &&& exists|chain: Seq<(int, int)>|
                        {
                            &&& #[trigger] self.line_growth(items, prefer_forward, line, chain)
                            &&& self.is_excerpt(excerpt, items, chain.last())
                        }
                },
                None => line.1 - line.0 + signatures_cost(self.bytes(), items, line) > self.max(),
            }
        }
    }

    /// Selects an excerpt with a given outline of the text.
    pub fn select_within<F: Fn(ExpansionChoice) -> bool>(
        &self,
        items: &Vec<OutlineItem>,
        prefer_forward: &F,
    ) -> (r: Option<ExcerptRanges>)
        requires
            self.fits(),
            items_fit(items@, self.bytes()),
            forall|choice: ExpansionChoice| #[trigger] prefer_forward.requires((choice,)),
        ensures
            self.selected(items@, *prefer_forward, r),
            r matches Some(excerpt) ==> covers(pair(excerpt.excerpt_range), self.cursor_line()),
    {
        proof {
            encode_utf8_valid_utf8(self.source@);
            lemma_line_start(self.bytes(), self.cursor_offset as int);
            lemma_line_end(self.bytes(), self.cursor_offset as int);
        }
        let source_length: usize = self.source.as_bytes().len();
        if source_length <= self.options.window_max_bytes {
            return Some(
                ExcerptRanges {
                    excerpt_range: 0..source_length,
                    parent_signature_ranges: Vec::new(),
                },
            );
        }
        let at_cursor = self.cursor_offset..self.cursor_offset;
        let query_range = expand_range_to_line_boundaries(self.source, at_cursor);
        if query_range.end - query_range.start > self.options.window_max_bytes {
            return None;
        }
        match self.select_via_ast(items, prefer_forward) {
            Some(excerpt) => Some(excerpt),
            None => self.select_via_lines(items, prefer_forward),
        }
    }

    /// Whether `items` is what the outline query gives for the text: its
    /// outline where the query's matches can be used and every signature lies in
    /// the text, otherwise nothing.
    pub open spec fn is_outline_of_source(
        &self,
        items: Seq<OutlineItem>,
        next_id: OutlineId,
    ) -> bool {
        match self.language.outline_config {
            Some(config) => {
                let matches = query_matches(
                    self.language.ts_language,
                    config.query@,
                    self.tree.parsed,
                    self.source@,
                );
                &&& items_fit(items, self.bytes())
                &&& if usable(matches, self.bytes(), next_id) {
                    exists|all: Seq<OutlineItem>|
                        {
                            &&& #[trigger] is_outline(
                                all,
                                self.bytes(),
                                matches->0,
                                &config,
                                next_id.0 as int,
                            )
                            &&& items == if items_fit(all, self.bytes()) {
                                all
                            } else {
                                Seq::empty()
                            }
                        }
                } else {
                    items.len() == 0
                }
            },
            None => items.len() == 0,
        }
    }

    /// Whether signatures can matter: the text exceeds the window, and the cursor's
    /// line does not.
    pub open spec fn needs_outline(&self) -> bool {
        let line = self.cursor_line();
        self.bytes().len() > self.max() && line.1 - line.0 <= self.max()
    }

    /// Whether `items` is the outline that an excerpt is selected with: that of the
    /// text, where it is needed.
    pub open spec fn is_outline_used(&self, items: Seq<OutlineItem>, next_id: OutlineId) -> bool {
        if self.needs_outline() {
            self.is_outline_of_source(items, next_id)
        } else {
            items.len() == 0
        }
    }

    /// Whether an excerpt, together with what its signatures add to it, fits the
    /// window.
    pub open spec fn within_window(&self, excerpt: ExcerptRanges) -> bool {
        let range = pair(excerpt.excerpt_range);
        range.1 - range.0 + added_by(excerpt.parent_signature_ranges@, range) <= self.max()
    }

    /// An excerpt around the cursor is selected by finding a sequence of AST nodes that contains the
    /// line the cursor is on, upto a byte limit for the window. The excerpt also includes the signatures
    /// of parent outline items.
    ///
    /// If there are no AST nodes or none fit, falls back on line-based expansion.
    ///
    /// Both selecting a sequence of AST nodes and line-based expansion are guided by
    /// `prefer_forward`, which compares the bytes before and after the cursor.
    ///
    /// Returns `None` if the line around the cursor doesn't fit. The outline is queried only where
    /// it can matter; its items take their numbers from `next_id`.
    pub fn select<F: Fn(ExpansionChoice) -> bool>(
        &self,
        prefer_forward: &F,
        next_id: &mut OutlineId,
    ) -> (r: Option<ExcerptRanges>)
        requires
            self.fits(),
            forall|choice: ExpansionChoice| #[trigger] prefer_forward.requires((choice,)),
        ensures
            exists|items: Seq<OutlineItem>|
                {
                    &&& #[trigger] self.is_outline_used(items, *old(next_id))
                    &&& self.selected(items, *prefer_forward, r)
                },
            r matches Some(excerpt) ==> {
                &&& covers(pair(excerpt.excerpt_range), self.cursor_line())
                &&& self.within_window(excerpt)
            },
            final(next_id).0 == if self.needs_outline() {
                id_after_outline(self.language, self.tree, self.source, *old(next_id))
            } else {
                old(next_id).0 as int
            },
    {
        let ghost first_id = *next_id;
        let at_cursor = self.cursor_offset..self.cursor_offset;
        proof {
            encode_utf8_valid_utf8(self.source@);
            lemma_line_start(self.bytes(), self.cursor_offset as int);
            lemma_line_end(self.bytes(), self.cursor_offset as int);
        }
        let line = expand_range_to_line_boundaries(self.source, at_cursor);
        let max: usize = self.options.window_max_bytes;
        if self.source.as_bytes().len() <= max || line.end - line.start > max {
            let none: Vec<OutlineItem> = Vec::new();
            assert(self.is_outline_used(none@, first_id));
            let r = self.select_within(&none, prefer_forward);
            proof {
                if r is Some {
                    self.law_excerpt_fits(none@, *prefer_forward, r);
                }
            }
            return r;
        }
        let items = match query_outline_items(self.language, self.tree, self.source, next_id) {
            Some(items) => items,
            None => Vec::new(),
        };
        let items = if self.check_items(&items) {
            items
        } else {
            Vec::new()
        };
        assert(self.is_outline_of_source(items@, first_id));
        assert(self.is_outline_used(items@, first_id));
        let r = self.select_within(&items, prefer_forward);
        proof {
            if r is Some {
                self.law_excerpt_fits(items@, *prefer_forward, r);
            }
        }
        r
    }

    /// Tests whether the signatures of all items lie in the text.
    fn check_items(&self, items: &Vec<OutlineItem>) -> (r: bool)
        ensures
            r == items_fit(items@, self.bytes()),
    {
        let mut k: usize = 0;
        while k < items.len()
            invariant
                k <= items@.len(),
                forall|j: int|
                    0 <= j < k ==> signature_fits(#[trigger] items@[j], self.bytes()),
            decreases items@.len() - k,
        {
            let range = &items[k].signature_range;
            if range.start > range.end || !self.source.is_char_boundary(range.start)
                || !self.source.is_char_boundary(range.end) {
                assert(!signature_fits(items@[k as int], self.bytes()));
                return false;
            }
            k = k + 1;
        }
        true
    }

    /// A selected excerpt, together with what its signatures add to it, fits
    /// the window.
    pub proof fn law_excerpt_fits<F: Fn(ExpansionChoice) -> bool>(
        &self,
        items: Seq<OutlineItem>,
        prefer_forward: F,
        r: Option<ExcerptRanges>,
    )
        requires
            self.fits(),
            items_fit(items, self.bytes()),
            self.selected(items, prefer_forward, r),
            r is Some,
        ensures
            self.within_window(r->0),
    {
        encode_utf8_valid_utf8(self.source@);
        let range = pair(r->0.excerpt_range);
        if self.bytes().len() <= self.max() {
        } else if let Some(i) = self.fitting_node(items, 0) {
            let signatures = signatures_cost(self.bytes(), items, self.node_lines(i));
            let chain = choose|chain: Seq<SiblingGrowth>|
                {
                    &&& #[trigger] self.sibling_growth(signatures, prefer_forward, i, chain)
                    &&& self.is_excerpt(r->0, items, chain.last().range)
                };
            self.lemma_fitting_node(items, 0);
            self.lemma_sibling_growth_fits(items, prefer_forward, i, chain, chain.len() - 1);
        } else {
            let line = self.cursor_line();
            let chain = choose|chain: Seq<(int, int)>|
                {
                    &&& #[trigger] self.line_growth(items, prefer_forward, line, chain)
                    &&& self.is_excerpt(r->0, items, chain.last())
                };
            self.lemma_line_growth_fits(items, prefer_forward, chain, chain.len() - 1);
        }
        if self.bytes().len() > self.max() {
            lemma_added_by(self.bytes(), items, range, r->0.parent_signature_ranges@);
        }
    }

    proof fn lemma_fitting_node(&self, items: Seq<OutlineItem>, i: int)
        requires
            0 <= i < self.tree.nodes@.len(),
        ensures
            self.fitting_node(items, i) matches Some(n) ==> {
                let lines = self.node_lines(n);
                &&& 0 <= n < self.tree.nodes@.len()
                &&& covers(lines, self.cursor_line())
                &&& lines.1 - lines.0 + signatures_cost(self.bytes(), items, lines) <= self.max()
            },
        decreases self.tree.nodes@.len() - i,
    {
        lemma_first_child_for_byte(self.tree.nodes@, i, self.cursor_line().0);
        if let Some(c) = first_child_for_byte(self.tree.nodes@, i, self.cursor_line().0) {
            self.lemma_fitting_node(items, c);
        }
    }

    proof fn lemma_line_growth_fits<F: Fn(ExpansionChoice) -> bool>(
        &self,
        items: Seq<OutlineItem>,
        prefer_forward: F,
        chain: Seq<(int, int)>,
        n: int,
    )
        requires
            self.fits(),
            valid_utf8(self.bytes()),
            items_fit(items, self.bytes()),
            self.line_growth(items, prefer_forward, self.cursor_line(), chain),
            0 <= n < chain.len(),
            ({
                let line = self.cursor_line();
                line.1 - line.0 + signatures_cost(self.bytes(), items, line) <= self.max()
            }),
        ensures
            0 <= chain[n].0 <= chain[n].1 <= self.bytes().len(),
            chain[n].1 - chain[n].0 + signatures_cost(self.bytes(), items, chain[n]) <= self.max(),
        decreases n,
    {
        lemma_line_start(self.bytes(), self.cursor_offset as int);
        lemma_line_end(self.bytes(), self.cursor_offset as int);
        if n > 0 {
            self.lemma_line_growth_fits(items, prefer_forward, chain, n - 1);
            assert(self.grows_by_line(items, prefer_forward, chain[n - 1], chain[n - 1 + 1]));
            lemma_line_start(self.bytes(), chain[n - 1].0);
            lemma_line_end(self.bytes(), chain[n - 1].1);
            let start = line_start(self.bytes(), chain[n - 1].0);
            if start > 0 {
                lemma_line_start(self.bytes(), start - 1);
            }
            lemma_signatures_cost_antitone(self.bytes(), items, chain[n - 1], chain[n]);
        }
    }

    proof fn lemma_sibling_growth_fits<F: Fn(ExpansionChoice) -> bool>(
        &self,
        items: Seq<OutlineItem>,
        prefer_forward: F,
        i: int,
        chain: Seq<SiblingGrowth>,
        n: int,
    )
        requires
            self.fits(),
            valid_utf8(self.bytes()),
            items_fit(items, self.bytes()),
            0 <= i < self.tree.nodes@.len(),
            self.sibling_growth(
                signatures_cost(self.bytes(), items, self.node_lines(i)),
                prefer_forward,
                i,
                chain,
            ),
            0 <= n < chain.len(),
            ({
                let lines = self.node_lines(i);
                lines.1 - lines.0 + signatures_cost(self.bytes(), items, lines) <= self.max()
            }),
        ensures
            covers(chain[n].range, self.node_lines(i)),
            chain[n].range.1 - chain[n].range.0 + signatures_cost(
                self.bytes(),
                items,
                chain[n].range,
            ) <= self.max(),
    {
        let lines = self.node_lines(i);
        let signatures = signatures_cost(self.bytes(), items, lines);
        let (first, last) = self.lemma_sibling_growth(prefer_forward, signatures, i, chain, n);
        lemma_signatures_cost_antitone(self.bytes(), items, lines, chain[n].range);
        if n > 0 {
            reveal(ExcerptRangesInput::sibling_steps);
            assert(self.grows_by_sibling(signatures, prefer_forward, chain[n - 1], chain[n - 1 + 1]));
        }
    }

    /// The first and the last sibling that a grown excerpt covers.
    #[verifier::rlimit(40)]
    #[verifier::spinoff_prover]
    proof fn lemma_sibling_growth<F: Fn(ExpansionChoice) -> bool>(
        &self,
        prefer_forward: F,
        signatures: int,
        i: int,
        chain: Seq<SiblingGrowth>,
        n: int,
    ) -> (r: (int, int))
        requires
            self.fits(),
            valid_utf8(self.bytes()),
            0 <= i < self.tree.nodes@.len(),
            self.sibling_growth(signatures, prefer_forward, i, chain),
            0 <= n < chain.len(),
        ensures
            0 <= r.0 <= i <= r.1 < self.tree.nodes@.len(),
            chain[n].forward == next_sibling(self.tree.nodes@, r.1),
            chain[n].backward == previous_sibling(self.tree.nodes@, r.0),
            chain[n].range.0 == line_start(
                self.bytes(),
                self.tree.nodes@[r.0].start_byte as int,
            ),
            chain[n].range.1 == line_end(self.bytes(), self.tree.nodes@[r.1].end_byte as int),
            covers(chain[n].range, self.node_lines(i)),
            is_run(self.tree.nodes@, r.0, i, r.1),
        decreases n,
    {
        let nodes = self.tree.nodes@;
        let bytes = self.bytes();
        if n == 0 {
            (i, i)
        } else {
            let (first, last) = self.lemma_sibling_growth(
                prefer_forward,
                signatures,
                i,
                chain,
                n - 1,
            );
            reveal(ExcerptRangesInput::sibling_steps);
            assert(self.grows_by_sibling(signatures, prefer_forward, chain[n - 1], chain[n - 1 + 1]));
            lemma_siblings(nodes, last);
            lemma_subtree_end(nodes, last);
            assert(nodes[first].start_byte <= nodes[first].end_byte);
            assert(nodes[last].start_byte <= nodes[last].end_byte);
            lemma_line_start(bytes, nodes[first].start_byte as int);
            lemma_line_end(bytes, nodes[last].end_byte as int);
            if Some(chain[n].range) == self.sibling_forward(chain[n - 1]) && chain[n].backward
                == chain[n - 1].backward && chain[n - 1].forward is Some && chain[n].forward
                == next_sibling(nodes, chain[n - 1].forward->0) {
                let j = chain[n - 1].forward->0;
                assert(follows_sibling(nodes, j));
                assert(nodes[j].start_byte <= nodes[j].end_byte);
                lemma_line_end_monotonic(
                    bytes,
                    nodes[last].end_byte as int,
                    nodes[j].end_byte as int,
                );
                lemma_run_grows(nodes, first, i, last, j);
                (first, j)
            } else {
                let j = chain[n - 1].backward->0;
                lemma_previous_sibling(nodes, first);
                assert(nodes[j].start_byte <= nodes[first].start_byte);
                lemma_line_start_monotonic(
                    bytes,
                    nodes[j].start_byte as int,
                    nodes[first].start_byte as int,
                );
                lemma_run_grows_back(nodes, j, first, i, last);
                (j, last)
            }
        }
    }
}

/// An optional range as a pair.
pub open spec fn pair_of(range: Option<Range<usize>>) -> Option<(int, int)> {
    match range {
        Some(range) => Some(pair(range)),
        None => None,
    }
}

/// Whether the siblings from `first` to `last` are consecutive and the one at `i` is
/// among them.
pub open spec fn is_run(nodes: Seq<SyntaxNode>, first: int, i: int, last: int) -> bool {
    &&& 0 <= first <= i <= last < nodes.len()
    &&& nodes[first].depth == nodes[i].depth
    &&& nodes[last].depth == nodes[i].depth
    &&& forall|k: int| first <= k <= last ==> (#[trigger] nodes[k]).depth >= nodes[i].depth
}

/// A run of siblings with the next one is a run.
proof fn lemma_run_grows(nodes: Seq<SyntaxNode>, first: int, i: int, last: int, j: int)
    requires
        is_run(nodes, first, i, last),
        next_sibling(nodes, last) == Some(j),
    ensures
        is_run(nodes, first, i, j),
        last < j < nodes.len(),
{
    lemma_subtree_end(nodes, last);
    law_siblings_are_neighbours(nodes, last, j);
}

/// A run of siblings with the one before it is a run.
proof fn lemma_run_grows_back(nodes: Seq<SyntaxNode>, j: int, first: int, i: int, last: int)
    requires
        is_run(nodes, first, i, last),
        previous_sibling(nodes, first) == Some(j),
    ensures
        is_run(nodes, j, i, last),
        0 <= j < first,
{
    lemma_previous_sibling(nodes, first);
    law_siblings_are_neighbours(nodes, j, first);
}

/// Only what fits is chosen: both ways are open to the caller's preference exactly
/// where both fit, which is then told how much of each lies before the cursor and how
/// much there is in all.
pub proof fn law_direction<F: Fn(ExpansionChoice) -> bool>(
    prefer_forward: F,
    cursor: int,
    max: int,
    signatures: int,
    forward: (int, int),
    backward: (int, int),
    go: Option<bool>,
)
    requires
        0 <= forward.0 <= cursor <= forward.1 <= usize::MAX,
        0 <= backward.0 <= cursor <= backward.1 <= usize::MAX,
        is_direction(
            prefer_forward,
            cursor,
            max,
            signatures,
            Some(forward),
            Some(backward),
            go,
        ),
    ensures
        go is None <==> forward.1 - forward.0 + signatures > max && backward.1 - backward.0
            + signatures > max,
        go == Some(true) ==> forward.1 - forward.0 + signatures <= max,
        go == Some(false) ==> backward.1 - backward.0 + signatures <= max,
        forward.1 - forward.0 + signatures <= max && backward.1 - backward.0 + signatures <= max
            ==> is_preferred(prefer_forward, cursor, forward, backward, go->0),
{
    let choice = choice_between(cursor, forward, backward);
    if go == Some(true) {
        assert(prefer_forward.ensures((choice,), true) || backward.1 - backward.0 + signatures
            > max);
    }
    if go == Some(false) {
        assert(prefer_forward.ensures((choice,), false) || forward.1 - forward.0 + signatures
            > max);
    }
}

/// Whether the caller's preference between two grown excerpts can be `go`.
pub open spec fn is_preferred<F: Fn(ExpansionChoice) -> bool>(
    prefer_forward: F,
    cursor: int,
    forward: (int, int),
    backward: (int, int),
    go: bool,
) -> bool {
    exists|choice: ExpansionChoice|
        {
            &&& #[trigger] prefer_forward.ensures((choice,), go)
            &&& choice.forward_before == cursor - forward.0
            &&& choice.forward_size == forward.1 - forward.0
            &&& choice.backward_before == cursor - backward.0
            &&& choice.backward_size == backward.1 - backward.0
        }
}

proof fn lemma_preferred<F: Fn(ExpansionChoice) -> bool>(
    prefer_forward: F,
    cursor: int,
    max: int,
    signatures: int,
    forward: (int, int),
    backward: (int, int),
    go: bool,
)
    requires
        0 <= forward.0 <= cursor <= forward.1 <= usize::MAX,
        0 <= backward.0 <= cursor <= backward.1 <= usize::MAX,
        is_direction(
            prefer_forward,
            cursor,
            max,
            signatures,
            Some(forward),
            Some(backward),
            Some(go),
        ),
        forward.1 - forward.0 + signatures <= max,
        backward.1 - backward.0 + signatures <= max,
    ensures
        is_preferred(prefer_forward, cursor, forward, backward, go),
{
    law_direction(prefer_forward, cursor, max, signatures, forward, backward, Some(go));
}

/// A signature adds to an excerpt that its item encloses what lies before and what lies
/// behind the excerpt, and the signatures of other items add nothing.
pub proof fn law_signature_costs_what_lies_outside(
    bytes: Seq<u8>,
    item: OutlineItem,
    range: (int, int),
)
    requires
        valid_utf8(bytes),
        signature_fits(item, bytes),
        0 <= range.0 <= range.1,
    ensures
        ({
            let start = line_start(bytes, item.signature_range.start as int);
            let end = line_end(bytes, item.signature_range.end as int);
            let before = if end <= range.0 {
                end - start
            } else if start <= range.0 {
                range.0 - start
            } else {
                0
            };
            let behind = if start >= range.1 && range.0 < start {
                end - start
            } else if end >= range.1 && end > range.0 {
                end - range.1
            } else {
                0
            };
            signatures_cost(bytes, seq![item], range) == if item.item_range.start <= range.0
                && range.1 <= item.item_range.end {
                if range.0 == range.1 {
                    end - start
                } else {
                    before + behind
                }
            } else {
                0
            }
        }),
{
    lemma_line_start(bytes, item.signature_range.start as int);
    lemma_line_end(bytes, item.signature_range.end as int);
    reveal_with_fuel(signatures_cost, 2);
    assert(seq![item].drop_last() =~= Seq::<OutlineItem>::empty());
    assert(seq![item].last() == item);
}

/// What the signatures of two lists of items add is the sum of what each list adds.
pub proof fn law_signatures_add_up(
    bytes: Seq<u8>,
    first: Seq<OutlineItem>,
    second: Seq<OutlineItem>,
    range: (int, int),
)
    ensures
        signatures_cost(bytes, first + second, range) == signatures_cost(bytes, first, range)
            + signatures_cost(bytes, second, range),
    decreases second.len(),
{
    if second.len() == 0 {
        assert(first + second =~= first);
    } else {
        assert((first + second).drop_last() =~= first + second.drop_last());
        assert((first + second).last() == second.last());
        law_signatures_add_up(bytes, first, second.drop_last(), range);
    }
}

/// Whether `lines` are the lines of the signature of an item that encloses a range.
pub open spec fn is_signature_around(
    bytes: Seq<u8>,
    item: OutlineItem,
    range: (int, int),
    lines: (int, int),
) -> bool {
    &&& item.item_range.start <= range.0
    &&& range.1 <= item.item_range.end
    &&& lines.0 == line_start(bytes, item.signature_range.start as int)
    &&& lines.1 == line_end(bytes, item.signature_range.end as int)
}

/// The signatures around an excerpt are those of the items that enclose it: each of them
/// is there, and none else.
pub proof fn law_enclosing_signatures(
    bytes: Seq<u8>,
    items: Seq<OutlineItem>,
    range: (int, int),
)
    ensures
        forall|k: int, lines: (int, int)|
            0 <= k < items.len() && #[trigger] is_signature_around(bytes, items[k], range, lines)
                ==> enclosing_signatures(bytes, items, range).contains(lines),
        forall|lines: (int, int)| #[trigger]
            enclosing_signatures(bytes, items, range).contains(lines) ==> exists|k: int|
                0 <= k < items.len() && #[trigger] is_signature_around(
                    bytes,
                    items[k],
                    range,
                    lines,
                ),
        enclosing_signatures(bytes, items, range).len() <= items.len(),
    decreases items.len(),
{
    if items.len() > 0 {
        let shorter = items.drop_last();
        law_enclosing_signatures(bytes, shorter, range);
        let before = enclosing_signatures(bytes, shorter, range);
        let all = enclosing_signatures(bytes, items, range);
        assert forall|k: int, lines: (int, int)|
            0 <= k < items.len() && #[trigger] is_signature_around(
                bytes,
                items[k],
                range,
                lines,
            ) implies all.contains(lines) by {
            if k < shorter.len() {
                assert(is_signature_around(bytes, shorter[k], range, lines));
                let j = choose|j: int| 0 <= j < before.len() && before[j] == lines;
                assert(all[j] == lines);
            } else {
                assert(all[before.len() as int] == lines);
            }
        }
        assert forall|lines: (int, int)| #[trigger] all.contains(lines) implies exists|k: int|
            0 <= k < items.len() && #[trigger] is_signature_around(
                bytes,
                items[k],
                range,
                lines,
            ) by {
            let j = choose|j: int| 0 <= j < all.len() && all[j] == lines;
            if j < before.len() {
                assert(before[j] == lines);
                assert(before.contains(lines));
                let k = choose|k: int|
                    0 <= k < shorter.len() && #[trigger] is_signature_around(
                        bytes,
                        shorter[k],
                        range,
                        lines,
                    );
                assert(is_signature_around(bytes, items[k], range, lines));
            } else {
                assert(is_signature_around(bytes, items[items.len() - 1], range, lines));
            }
        }
    }
}

impl ExcerptRangesInput<'_> {
    /// How many bytes the lines of the node at `i` and the signatures around them take.
    pub open spec fn node_size(&self, items: Seq<OutlineItem>, i: int) -> int {
        let start = line_start(self.bytes(), self.tree.nodes@[i].start_byte as int);
        let end = line_end(self.bytes(), self.tree.nodes@[i].end_byte as int);
        end - start + signatures_cost(self.bytes(), items, (start, end))
    }

    /// Whether an excerpt shows the siblings from `first` to `last` around the node at
    /// `i` and cannot grow: the lines from the sibling before them to the end of the
    /// excerpt, and those from its start to the sibling after them, exceed the window
    /// with the signatures around the node.
    pub open spec fn is_maximal(
        &self,
        items: Seq<OutlineItem>,
        excerpt: ExcerptRanges,
        first: int,
        i: int,
        last: int,
    ) -> bool {
        let nodes = self.tree.nodes@;
        let bytes = self.bytes();
        let start = line_start(bytes, nodes[i].start_byte as int);
        let end = line_end(bytes, nodes[i].end_byte as int);
        let signatures = signatures_cost(bytes, items, (start, end));
        &&& is_run(nodes, first, i, last)
        &&& excerpt.excerpt_range.start == line_start(bytes, nodes[first].start_byte as int)
        &&& excerpt.excerpt_range.end == line_end(bytes, nodes[last].end_byte as int)
        &&& forall|p: int| #[trigger]
            are_neighbours(nodes, p, first) ==> excerpt.excerpt_range.end - line_start(
                bytes,
                nodes[p].start_byte as int,
            ) + signatures > self.options.window_max_bytes
        &&& forall|q: int| #[trigger]
            are_neighbours(nodes, last, q) ==> line_end(bytes, nodes[q].end_byte as int)
                - excerpt.excerpt_range.start + signatures > self.options.window_max_bytes
    }

    /// Whether a node on the way down to the cursor's line fits the window, and it and
    /// every node around it covers the line.
    pub open spec fn is_candidate(&self, items: Seq<OutlineItem>, a: int) -> bool {
        &&& self.is_on_path(a)
        &&& self.node_size(items, a) <= self.options.window_max_bytes
        &&& forall|b: int|
            b == a || is_below(self.tree.nodes@, b, a) ==> covers(
                #[trigger] self.node_lines(b),
                self.cursor_line(),
            )
    }

    /// Where a node fits, the excerpt is maximal both ways: it grows from the largest
    /// node around the cursor's line that fits the window over the siblings before and
    /// after it, until neither the one before nor the one after fits.
    pub proof fn law_excerpt_is_maximal<F: Fn(ExpansionChoice) -> bool>(
        &self,
        items: Seq<OutlineItem>,
        prefer_forward: F,
        r: Option<ExcerptRanges>,
        a: int,
    )
        requires
            self.fits(),
            items_fit(items, self.bytes()),
            self.selected(items, prefer_forward, r),
            self.bytes().len() > self.options.window_max_bytes,
            self.cursor_line().1 - self.cursor_line().0 <= self.options.window_max_bytes,
            self.is_candidate(items, a),
        ensures
            r is Some,
            exists|first: int, i: int, last: int|
                {
                    &&& #[trigger] self.is_maximal(items, r->0, first, i, last)
                    &&& i == a || is_below(self.tree.nodes@, i, a)
                    &&& covers(self.node_lines(i), self.cursor_line())
                    &&& self.node_size(items, i) <= self.options.window_max_bytes
                    &&& forall|b: int| #[trigger]
                        is_below(self.tree.nodes@, b, i) ==> self.node_size(items, b)
                            > self.options.window_max_bytes
                },
    {
        self.law_fitting_node_is_found(items, a);
        let excerpt = r->0;
        encode_utf8_valid_utf8(self.source@);
        let nodes = self.tree.nodes@;
        let bytes = self.bytes();
        let i = self.fitting_node(items, 0)->0;
        let signatures = signatures_cost(bytes, items, self.node_lines(i));
        let chain = choose|chain: Seq<SiblingGrowth>|
            {
                &&& #[trigger] self.sibling_growth(signatures, prefer_forward, i, chain)
                &&& self.is_excerpt(r->0, items, chain.last().range)
            };
        self.lemma_fitting_node(items, 0);
        self.lemma_larger_nodes(items, 0, i);
        let n = chain.len() - 1;
        let (first, last) = self.lemma_sibling_growth(prefer_forward, signatures, i, chain, n);
        lemma_line_start(bytes, nodes[first].start_byte as int);
        lemma_line_end(bytes, nodes[last].end_byte as int);
        assert forall|p: int| #[trigger] are_neighbours(nodes, p, first) implies
            excerpt.excerpt_range.end - line_start(bytes, nodes[p].start_byte as int) + signatures
            > self.max() by {
            law_siblings_are_neighbours(nodes, p, first);
            assert(chain[n].backward == Some(p));
        }
        assert forall|q: int| #[trigger] are_neighbours(nodes, last, q) implies line_end(
            bytes,
            nodes[q].end_byte as int,
        ) - excerpt.excerpt_range.start + signatures > self.max() by {
            law_siblings_are_neighbours(nodes, last, q);
            assert(chain[n].forward == Some(q));
        }
        assert(self.is_maximal(items, excerpt, first, i, last));
    }

    /// Whether the siblings from `first` to `last` grow to those from `next.0` to
    /// `next.1` by the neighbour after or before them: one that fits the window, and
    /// where both do, the one that is preferred.
    pub open spec fn moves_by_sibling<F: Fn(ExpansionChoice) -> bool>(
        &self,
        signatures: int,
        prefer_forward: F,
        run: (int, int),
        next: (int, int),
    ) -> bool {
        let nodes = self.tree.nodes@;
        let bytes = self.bytes();
        let start = line_start(bytes, nodes[run.0].start_byte as int);
        let end = line_end(bytes, nodes[run.1].end_byte as int);
        let forward = next.0 == run.0 && are_neighbours(nodes, run.1, next.1);
        let backward = next.1 == run.1 && are_neighbours(nodes, next.0, run.0);
        &&& forward || backward
        &&& forward ==> {
            let reach = line_end(bytes, nodes[next.1].end_byte as int);
            &&& reach - start + signatures <= self.options.window_max_bytes
            &&& forall|p: int| #[trigger]
                are_neighbours(nodes, p, run.0) && end - line_start(
                    bytes,
                    nodes[p].start_byte as int,
                ) + signatures <= self.options.window_max_bytes ==> is_preferred(
                    prefer_forward,
                    self.cursor_offset as int,
                    (start, reach),
                    (line_start(bytes, nodes[p].start_byte as int), end),
                    true,
                )
        }
        &&& backward ==> {
            let reach = line_start(bytes, nodes[next.0].start_byte as int);
            &&& end - reach + signatures <= self.options.window_max_bytes
            &&& forall|q: int| #[trigger]
                are_neighbours(nodes, run.1, q) && line_end(bytes, nodes[q].end_byte as int)
                    - start + signatures <= self.options.window_max_bytes ==> is_preferred(
                    prefer_forward,
                    self.cursor_offset as int,
                    (start, line_end(bytes, nodes[q].end_byte as int)),
                    (reach, end),
                    false,
                )
        }
    }

    /// An excerpt over siblings grows by one neighbour at a time from the largest node
    /// that fits, forward or backward as the caller prefers.
    pub proof fn law_siblings_follow_preference<F: Fn(ExpansionChoice) -> bool>(
        &self,
        items: Seq<OutlineItem>,
        prefer_forward: F,
        r: Option<ExcerptRanges>,
        a: int,
    )
        requires
            self.fits(),
            items_fit(items, self.bytes()),
            self.bytes().len() <= usize::MAX,
            self.selected(items, prefer_forward, r),
            self.bytes().len() > self.options.window_max_bytes,
            self.cursor_line().1 - self.cursor_line().0 <= self.options.window_max_bytes,
            self.is_candidate(items, a),
        ensures
            r is Some,
            exists|i: int, runs: Seq<(int, int)>|
                {
                    &&& i == a || is_below(self.tree.nodes@, i, a)
                    &&& #[trigger] self.is_growth_of(items, prefer_forward, i, runs)
                    &&& r->0.excerpt_range.start == line_start(
                        self.bytes(),
                        self.tree.nodes@[runs.last().0].start_byte as int,
                    )
                    &&& r->0.excerpt_range.end == line_end(
                        self.bytes(),
                        self.tree.nodes@[runs.last().1].end_byte as int,
                    )
                },
    {
        self.law_fitting_node_is_found(items, a);
        encode_utf8_valid_utf8(self.source@);
        let i = self.fitting_node(items, 0)->0;
        let signatures = signatures_cost(self.bytes(), items, self.node_lines(i));
        let chain = choose|chain: Seq<SiblingGrowth>|
            {
                &&& #[trigger] self.sibling_growth(signatures, prefer_forward, i, chain)
                &&& self.is_excerpt(r->0, items, chain.last().range)
            };
        self.lemma_fitting_node(items, 0);
        let runs = self.lemma_runs(prefer_forward, signatures, i, chain, chain.len() - 1);
        assert(self.is_growth_of(items, prefer_forward, i, runs));
    }

    /// Whether runs of siblings grow one into the next from the node at `i`.
    pub open spec fn is_growth_of<F: Fn(ExpansionChoice) -> bool>(
        &self,
        items: Seq<OutlineItem>,
        prefer_forward: F,
        i: int,
        runs: Seq<(int, int)>,
    ) -> bool {
        &&& runs.len() > 0
        &&& runs[0] == (i, i)
        &&& self.is_run_chain(
            signatures_cost(self.bytes(), items, self.node_lines(i)),
            prefer_forward,
            i,
            runs,
        )
    }

    /// Whether runs of siblings grow one into the next.
    pub open spec fn is_run_chain<F: Fn(ExpansionChoice) -> bool>(
        &self,
        signatures: int,
        prefer_forward: F,
        i: int,
        runs: Seq<(int, int)>,
    ) -> bool {
        forall|k: int|
            0 < k < runs.len() ==> self.moves_by_sibling(
                signatures,
                prefer_forward,
                runs[k - 1],
                #[trigger] runs[k],
            )
    }

    #[verifier::rlimit(60)]
    #[verifier::spinoff_prover]
    proof fn lemma_runs<F: Fn(ExpansionChoice) -> bool>(
        &self,
        prefer_forward: F,
        signatures: int,
        i: int,
        chain: Seq<SiblingGrowth>,
        n: int,
    ) -> (runs: Seq<(int, int)>)
        requires
            self.fits(),
            valid_utf8(self.bytes()),
            self.bytes().len() <= usize::MAX,
            0 <= i < self.tree.nodes@.len(),
            covers(self.node_lines(i), self.cursor_line()),
            self.sibling_growth(signatures, prefer_forward, i, chain),
            0 <= n < chain.len(),
        ensures
            runs.len() == n + 1,
            runs[0] == (i, i),
            self.is_run_chain(signatures, prefer_forward, i, runs),
            ({
                let r = runs.last();
                &&& is_run(self.tree.nodes@, r.0, i, r.1)
                &&& chain[n].forward == next_sibling(self.tree.nodes@, r.1)
                &&& chain[n].backward == previous_sibling(self.tree.nodes@, r.0)
                &&& chain[n].range.0 == line_start(
                    self.bytes(),
                    self.tree.nodes@[r.0].start_byte as int,
                )
                &&& chain[n].range.1 == line_end(
                    self.bytes(),
                    self.tree.nodes@[r.1].end_byte as int,
                )
                &&& covers(chain[n].range, self.node_lines(i))
            }),
        decreases n,
    {
        let nodes = self.tree.nodes@;
        let bytes = self.bytes();
        if n == 0 {
            seq![(i, i)]
        } else {
            let runs = self.lemma_runs(prefer_forward, signatures, i, chain, n - 1);
            let (first, last) = runs.last();
            let growth = chain[n - 1];
            reveal(ExcerptRangesInput::sibling_steps);
            assert(self.grows_by_sibling(signatures, prefer_forward, chain[n - 1], chain[n - 1 + 1]));
            lemma_line_start(bytes, self.cursor_offset as int);
            lemma_line_end(bytes, self.cursor_offset as int);
            lemma_line_start(bytes, nodes[first].start_byte as int);
            lemma_line_end(bytes, nodes[last].end_byte as int);
            let forward = {
                &&& self.sibling_step(signatures, prefer_forward, growth, Some(true))
                &&& Some(chain[n].range) == self.sibling_forward(growth)
                &&& chain[n].forward == next_sibling(nodes, growth.forward->0)
                &&& chain[n].backward == growth.backward
            };
            let next = if forward {
                (first, growth.forward->0)
            } else {
                (growth.backward->0, last)
            };
            if forward {
                let j = growth.forward->0;
                lemma_run_grows(nodes, first, i, last, j);
                law_siblings_are_neighbours(nodes, last, j);
                assert(follows_sibling(nodes, j)) by {
                    lemma_siblings(nodes, last);
                }
                assert(nodes[j].start_byte <= nodes[j].end_byte);
                lemma_siblings(nodes, last);
                lemma_line_end(bytes, nodes[j].end_byte as int);
                lemma_line_end_monotonic(bytes, nodes[last].end_byte as int, nodes[j].end_byte as int);
                assert forall|p: int| #[trigger]
                    are_neighbours(nodes, p, first) && growth.range.1 - line_start(
                        bytes,
                        nodes[p].start_byte as int,
                    ) + signatures <= self.max() implies is_preferred(
                    prefer_forward,
                    self.cursor_offset as int,
                    (growth.range.0, line_end(bytes, nodes[j].end_byte as int)),
                    (line_start(bytes, nodes[p].start_byte as int), growth.range.1),
                    true,
                ) by {
                    law_siblings_are_neighbours(nodes, p, first);
                    lemma_line_start(bytes, nodes[p].start_byte as int);
                    lemma_line_start_monotonic(
                        bytes,
                        nodes[p].start_byte as int,
                        nodes[first].start_byte as int,
                    );
                    assert(self.sibling_backward(growth) == Some(
                        (line_start(bytes, nodes[p].start_byte as int), growth.range.1),
                    ));
                    lemma_preferred(
                        prefer_forward,
                        self.cursor_offset as int,
                        self.max(),
                        signatures,
                        (growth.range.0, line_end(bytes, nodes[j].end_byte as int)),
                        (line_start(bytes, nodes[p].start_byte as int), growth.range.1),
                        true,
                    );
                }
                assert(!are_neighbours(nodes, first, first));
            } else {
                let j = growth.backward->0;
                lemma_run_grows_back(nodes, j, first, i, last);
                law_siblings_are_neighbours(nodes, j, first);
                assert(nodes[j].start_byte <= nodes[first].start_byte);
                lemma_line_start(bytes, nodes[j].start_byte as int);
                lemma_line_start_monotonic(
                    bytes,
                    nodes[j].start_byte as int,
                    nodes[first].start_byte as int,
                );
                assert forall|q: int| #[trigger]
                    are_neighbours(nodes, last, q) && line_end(bytes, nodes[q].end_byte as int)
                        - growth.range.0 + signatures <= self.max() implies is_preferred(
                    prefer_forward,
                    self.cursor_offset as int,
                    (growth.range.0, line_end(bytes, nodes[q].end_byte as int)),
                    (line_start(bytes, nodes[j].start_byte as int), growth.range.1),
                    false,
                ) by {
                    law_siblings_are_neighbours(nodes, last, q);
                    assert(follows_sibling(nodes, q));
                    assert(nodes[q].start_byte <= nodes[q].end_byte);
                    lemma_line_end(bytes, nodes[q].end_byte as int);
                    lemma_line_end_monotonic(
                        bytes,
                        nodes[last].end_byte as int,
                        nodes[q].end_byte as int,
                    );
                    assert(self.sibling_forward(growth) == Some(
                        (growth.range.0, line_end(bytes, nodes[q].end_byte as int)),
                    ));
                    lemma_preferred(
                        prefer_forward,
                        self.cursor_offset as int,
                        self.max(),
                        signatures,
                        (growth.range.0, line_end(bytes, nodes[q].end_byte as int)),
                        (line_start(bytes, nodes[j].start_byte as int), growth.range.1),
                        false,
                    );
                }
            }
            assert(self.moves_by_sibling(signatures, prefer_forward, (first, last), next));
            let longer = runs.push(next);
            assert forall|k: int| 0 < k < longer.len() implies self.moves_by_sibling(
                signatures,
                prefer_forward,
                longer[k - 1],
                #[trigger] longer[k],
            ) by {
                if k < runs.len() {
                    assert(longer[k] == runs[k] && longer[k - 1] == runs[k - 1]);
                }
            }
            longer
        }
    }

    /// No node that encloses the one found fits.
    proof fn lemma_larger_nodes(&self, items: Seq<OutlineItem>, i: int, n: int)
        requires
            self.fits(),
            0 <= i < self.tree.nodes@.len(),
            self.fitting_node(items, i) == Some(n),
        ensures
            i == n || is_below(self.tree.nodes@, i, n),
            forall|a: int|
                i <= a && #[trigger] is_below(self.tree.nodes@, a, n) ==> self.node_size(items, a)
                    > self.max(),
        decreases self.tree.nodes@.len() - i,
    {
        let nodes = self.tree.nodes@;
        if self.node_size(items, i) > self.max() {
            let c = first_child_for_byte(nodes, i, self.cursor_line().0)->0;
            lemma_first_child_for_byte(nodes, i, self.cursor_line().0);
            law_child_for_byte(nodes, self.bytes(), i, self.cursor_line().0);
            self.lemma_larger_nodes(items, c, n);
            assert(is_below(nodes, i, n));
            assert forall|a: int| i <= a && #[trigger] is_below(nodes, a, n) implies
                self.node_size(items, a) > self.max() by {
                if i < a < c {
                    assert(nodes[c].depth > nodes[a].depth);
                    assert(nodes[a].depth > nodes[i].depth);
                }
            }
        } else {
            assert forall|a: int| i <= a && #[trigger] is_below(nodes, a, n) implies
                self.node_size(items, a) > self.max() by {}
        }
    }
}

impl ExcerptRangesInput<'_> {
    /// Whether going down from the root, always to the first child that ends after the
    /// start of the cursor's line, leads to the node at `a`.
    pub open spec fn is_on_path(&self, a: int) -> bool {
        let nodes = self.tree.nodes@;
        &&& 0 <= a < nodes.len()
        &&& forall|b: int, c: int, d: int| #[trigger]
            is_child(nodes, b, c) && (c == a || is_below(nodes, c, a)) && #[trigger] is_child(
                nodes,
                b,
                d,
            ) ==> (d <= c ==> (nodes[d].end_byte > self.cursor_line().0 <==> d == c))
    }

    /// Where a node on the way down to the cursor's line fits the window, and it and
    /// every node around it covers the line, a node is found: that one or one around it.
    pub proof fn law_fitting_node_is_found(&self, items: Seq<OutlineItem>, a: int)
        requires
            self.fits(),
            self.is_candidate(items, a),
        ensures
            self.fitting_node(items, 0) matches Some(n) && (n == a || is_below(
                self.tree.nodes@,
                n,
                a,
            )),
    {
        let nodes = self.tree.nodes@;
        if a > 0 {
            assert forall|m: int| 0 < m <= a implies (#[trigger] nodes[m]).depth
                > nodes[0].depth by {
                assert(steps_down(nodes, m));
            }
            assert(is_below(nodes, 0, a));
        }
        self.lemma_fitting_node_is_found(items, 0, a);
    }

    proof fn lemma_fitting_node_is_found(&self, items: Seq<OutlineItem>, i: int, a: int)
        requires
            self.fits(),
            self.is_candidate(items, a),
            i == a || is_below(self.tree.nodes@, i, a),
        ensures
            self.fitting_node(items, i) matches Some(n) && (n == a || is_below(
                self.tree.nodes@,
                n,
                a,
            )),
        decreases self.tree.nodes@.len() - i,
    {
        let nodes = self.tree.nodes@;
        assert(covers(self.node_lines(i), self.cursor_line()));
        if self.node_size(items, i) > self.max() {
            let c = self.lemma_child_towards(i, a, a);
            law_child_for_byte(nodes, self.bytes(), i, self.cursor_line().0);
            assert(is_child(nodes, i, c));
            match first_child_for_byte(nodes, i, self.cursor_line().0) {
                Some(d) => {
                    assert(is_child(nodes, i, d));
                    assert(d == c);
                },
                None => {
                    assert(nodes[c].end_byte > self.cursor_line().0);
                },
            }
            self.lemma_fitting_node_is_found(items, c, a);
        }
    }

    /// The child of a node that is, or encloses, one below it.
    proof fn lemma_child_towards(&self, i: int, a: int, m: int) -> (c: int)
        requires
            self.fits(),
            is_below(self.tree.nodes@, i, a),
            i < m <= a,
            forall|k: int|
                m < k <= a ==> (#[trigger] self.tree.nodes@[k]).depth
                    > self.tree.nodes@[i].depth + 1,
        ensures
            is_child(self.tree.nodes@, i, c),
            c == a || is_below(self.tree.nodes@, c, a),
        decreases m,
    {
        let nodes = self.tree.nodes@;
        assert(steps_down(nodes, m));
        assert(nodes[m].depth > nodes[i].depth);
        if nodes[m].depth == nodes[i].depth + 1 {
            m
        } else {
            self.lemma_child_towards(i, a, m - 1)
        }
    }

    /// An excerpt that the lines give is made of whole lines and is maximal both ways:
    /// with the next line, and with the line before it, it exceeds the window.
    pub proof fn law_lines_are_maximal<F: Fn(ExpansionChoice) -> bool>(
        &self,
        items: Seq<OutlineItem>,
        prefer_forward: F,
        excerpt: ExcerptRanges,
    )
        requires
            self.fits(),
            items_fit(items, self.bytes()),
            self.bytes().len() > self.options.window_max_bytes,
            self.fitting_node(items, 0) is None,
            self.selected(items, prefer_forward, Some(excerpt)),
        ensures
            ({
                let bytes = self.bytes();
                let start = excerpt.excerpt_range.start as int;
                let end = excerpt.excerpt_range.end as int;
                let signatures = signatures_cost(bytes, items, (start, end));
                &&& start <= self.cursor_offset <= end <= bytes.len()
                &&& start == 0 || bytes[start - 1] == NEWLINE
                &&& end == bytes.len() || bytes[end] == NEWLINE || bytes[end - 1] == NEWLINE
                &&& line_end(bytes, end) < bytes.len() ==> line_end(bytes, end) + 1 - start
                    + signatures > self.options.window_max_bytes
                &&& start > 0 ==> end - line_start(bytes, start - 1) + signatures
                    > self.options.window_max_bytes
            }),
    {
        encode_utf8_valid_utf8(self.source@);
        let line = self.cursor_line();
        let r = Some(excerpt);
        let chain = choose|chain: Seq<(int, int)>|
            {
                &&& #[trigger] self.line_growth(items, prefer_forward, line, chain)
                &&& self.is_excerpt(r->0, items, chain.last())
            };
        self.lemma_line_growth_lines(items, prefer_forward, chain, chain.len() - 1);
        assert(chain[chain.len() - 1] == chain.last());
        let range = chain.last();
        assert(self.line_step(items, prefer_forward, range, None));
        assert(line_start(self.bytes(), range.0) == range.0);
    }

    #[verifier::rlimit(60)]
    #[verifier::spinoff_prover]
    proof fn lemma_line_growth_lines<F: Fn(ExpansionChoice) -> bool>(
        &self,
        items: Seq<OutlineItem>,
        prefer_forward: F,
        chain: Seq<(int, int)>,
        n: int,
    )
        requires
            self.fits(),
            valid_utf8(self.bytes()),
            self.line_growth(items, prefer_forward, self.cursor_line(), chain),
            0 <= n < chain.len(),
        ensures
            0 <= chain[n].0 <= self.cursor_offset <= chain[n].1 <= self.bytes().len(),
            chain[n].0 == 0 || self.bytes()[chain[n].0 - 1] == NEWLINE,
            chain[n].1 == self.bytes().len() || self.bytes()[chain[n].1] == NEWLINE
                || self.bytes()[chain[n].1 - 1] == NEWLINE,
            line_start(self.bytes(), chain[n].0) == chain[n].0,
        decreases n,
    {
        let bytes = self.bytes();
        lemma_line_start(bytes, self.cursor_offset as int);
        lemma_line_end(bytes, self.cursor_offset as int);
        if n > 0 {
            self.lemma_line_growth_lines(items, prefer_forward, chain, n - 1);
            assert(self.grows_by_line(items, prefer_forward, chain[n - 1], chain[n - 1 + 1]));
            lemma_line_start(bytes, chain[n - 1].0);
            lemma_line_end(bytes, chain[n - 1].1);
            let start = line_start(bytes, chain[n - 1].0);
            if start > 0 {
                lemma_line_start(bytes, start - 1);
            }
        }
    }

    /// Whether an excerpt of whole lines grows into the next of two by the line after or
    /// before it: one that fits the window, and where both do, the one that is
    /// preferred.
    pub open spec fn moves_by_line<F: Fn(ExpansionChoice) -> bool>(
        &self,
        items: Seq<OutlineItem>,
        prefer_forward: F,
        range: (int, int),
        next: (int, int),
    ) -> bool {
        let bytes = self.bytes();
        let signatures = signatures_cost(bytes, items, range);
        let end = line_end(bytes, range.1) + 1;
        let start = line_start(bytes, range.0 - 1);
        let room_after = end <= bytes.len() && end - range.0 + signatures
            <= self.options.window_max_bytes;
        let room_before = range.0 > 0 && range.1 - start + signatures
            <= self.options.window_max_bytes;
        &&& next == (range.0, end) && room_after || next == (start, range.1) && room_before
        &&& room_after && room_before ==> is_preferred(
            prefer_forward,
            self.cursor_offset as int,
            (range.0, end),
            (start, range.1),
            next.0 == range.0,
        )
    }

    /// An excerpt over lines grows by one line at a time from the cursor's, forward or
    /// backward as the caller prefers.
    pub proof fn law_lines_follow_preference<F: Fn(ExpansionChoice) -> bool>(
        &self,
        items: Seq<OutlineItem>,
        prefer_forward: F,
        excerpt: ExcerptRanges,
    )
        requires
            self.fits(),
            items_fit(items, self.bytes()),
            self.bytes().len() <= usize::MAX,
            self.bytes().len() > self.options.window_max_bytes,
            self.fitting_node(items, 0) is None,
            self.selected(items, prefer_forward, Some(excerpt)),
        ensures
            exists|chain: Seq<(int, int)>|
                {
                    &&& #[trigger] self.is_growth_by_lines(items, prefer_forward, chain)
                    &&& chain.last() == pair(excerpt.excerpt_range)
                },
    {
        encode_utf8_valid_utf8(self.source@);
        let line = self.cursor_line();
        let r = Some(excerpt);
        let chain = choose|chain: Seq<(int, int)>|
            {
                &&& #[trigger] self.line_growth(items, prefer_forward, line, chain)
                &&& self.is_excerpt(r->0, items, chain.last())
            };
        assert forall|k: int| 0 < k < chain.len() implies self.moves_by_line(
            items,
            prefer_forward,
            chain[k - 1],
            #[trigger] chain[k],
        ) by {
            self.lemma_moves_by_line(items, prefer_forward, chain, k);
        }
        assert(self.is_growth_by_lines(items, prefer_forward, chain));
    }

    /// Whether excerpts grow one into the next from the cursor's line.
    pub open spec fn is_growth_by_lines<F: Fn(ExpansionChoice) -> bool>(
        &self,
        items: Seq<OutlineItem>,
        prefer_forward: F,
        chain: Seq<(int, int)>,
    ) -> bool {
        &&& chain.len() > 0
        &&& chain[0] == (
            line_start(self.bytes(), self.cursor_offset as int),
            line_end(self.bytes(), self.cursor_offset as int),
        )
        &&& forall|k: int|
            0 < k < chain.len() ==> self.moves_by_line(
                items,
                prefer_forward,
                chain[k - 1],
                #[trigger] chain[k],
            )
    }

    #[verifier::rlimit(60)]
    #[verifier::spinoff_prover]
    proof fn lemma_moves_by_line<F: Fn(ExpansionChoice) -> bool>(
        &self,
        items: Seq<OutlineItem>,
        prefer_forward: F,
        chain: Seq<(int, int)>,
        k: int,
    )
        requires
            self.fits(),
            valid_utf8(self.bytes()),
            self.bytes().len() <= usize::MAX,
            self.line_growth(items, prefer_forward, self.cursor_line(), chain),
            0 < k < chain.len(),
        ensures
            self.moves_by_line(items, prefer_forward, chain[k - 1], chain[k]),
    {
        let bytes = self.bytes();
        let range = chain[k - 1];
        let signatures = signatures_cost(bytes, items, range);
        self.lemma_line_growth_lines(items, prefer_forward, chain, k - 1);
        assert(self.grows_by_line(items, prefer_forward, chain[k - 1], chain[k - 1 + 1]));
        lemma_line_end(bytes, range.1);
        if range.0 > 0 {
            lemma_line_start(bytes, range.0 - 1);
        }
        let go = self.line_step(items, prefer_forward, range, Some(true)) && Some(chain[k])
            == line_forward(bytes, range);
        match (line_forward(bytes, range), line_backward(bytes, range)) {
            (Some(forward), Some(backward)) => {
                if candidate_fits(Some(forward), signatures, self.max()) && candidate_fits(
                    Some(backward),
                    signatures,
                    self.max(),
                ) {
                    lemma_preferred(
                        prefer_forward,
                        self.cursor_offset as int,
                        self.max(),
                        signatures,
                        forward,
                        backward,
                        go,
                    );
                }
            },
            _ => {},
        }
    }

    /// What is selected with a given outline: a text that fits the window is shown
    /// whole; an excerpt covers the cursor's line, fits the window and has the
    /// signatures of the items around it; and there is none exactly where the line, or
    /// the line with the signatures around it, does not fit and no node does.
    pub proof fn law_selection<F: Fn(ExpansionChoice) -> bool>(
        &self,
        items: Seq<OutlineItem>,
        prefer_forward: F,
        r: Option<ExcerptRanges>,
    )
        requires
            self.fits(),
            items_fit(items, self.bytes()),
            self.selected(items, prefer_forward, r),
        ensures
            self.bytes().len() <= self.options.window_max_bytes ==> {
                &&& r is Some
                &&& r->0.excerpt_range.start == 0
                &&& r->0.excerpt_range.end == self.bytes().len()
            },
            r is None ==> {
                let line = self.cursor_line();
                line.1 - line.0 + signatures_cost(self.bytes(), items, line)
                    > self.options.window_max_bytes
            },
            self.cursor_line().1 - self.cursor_line().0 > self.options.window_max_bytes
                ==> r is None,
            r is Some && self.bytes().len() > self.options.window_max_bytes ==> {
                let range = pair(r->0.excerpt_range);
                let signatures = r->0.parent_signature_ranges@;
                &&& forall|k: int, lines: (int, int)|
                    0 <= k < items.len() && #[trigger] is_signature_around(
                        self.bytes(),
                        items[k],
                        range,
                        lines,
                    ) ==> pairs(signatures).contains(lines)
                &&& forall|lines: (int, int)| #[trigger]
                    pairs(signatures).contains(lines) ==> exists|k: int|
                        0 <= k < items.len() && #[trigger] is_signature_around(
                            self.bytes(),
                            items[k],
                            range,
                            lines,
                        )
            },
    {
        encode_utf8_valid_utf8(self.source@);
        lemma_line_start(self.bytes(), self.cursor_offset as int);
        lemma_line_end(self.bytes(), self.cursor_offset as int);
        lemma_signatures_cost_antitone(
            self.bytes(),
            items,
            self.cursor_line(),
            self.cursor_line(),
        );
        if let Some(excerpt) = r {
            law_enclosing_signatures(self.bytes(), items, pair(excerpt.excerpt_range));
        }
    }
}

impl ExcerptRangesInput<'_> {
    /// Where the text exceeds the window and the cursor's line does not, an excerpt is
    /// selected with the outline of the text, if that lies in the text.
    pub proof fn law_outline_of_source_is_used(
        &self,
        items: Seq<OutlineItem>,
        next_id: OutlineId,
        outline: Seq<OutlineItem>,
    )
        requires
            self.is_outline_used(items, next_id),
            self.bytes().len() > self.options.window_max_bytes,
            self.cursor_line().1 - self.cursor_line().0 <= self.options.window_max_bytes,
            items_fit(outline, self.bytes()),
            self.language.outline_config matches Some(config) && {
                let matches = query_matches(
                    self.language.ts_language,
                    config.query@,
                    self.tree.parsed,
                    self.source@,
                );
                &&& usable(matches, self.bytes(), next_id)
                &&& is_outline(
                    outline,
                    self.bytes(),
                    matches->0,
                    &config,
                    next_id.0 as int,
                )
            },
        ensures
            items.len() == outline.len(),
            forall|k: int|
                0 <= k < items.len() ==> {
                    &&& (#[trigger] items[k]).item_range.start == outline[k].item_range.start
                    &&& items[k].item_range.end == outline[k].item_range.end
                    &&& items[k].signature_range.start == outline[k].signature_range.start
                    &&& items[k].signature_range.end == outline[k].signature_range.end
                },
    {
        let config = self.language.outline_config->0;
        let matches = query_matches(
            self.language.ts_language,
            config.query@,
            self.tree.parsed,
            self.source@,
        )->0;
        let all = choose|all: Seq<OutlineItem>|
            {
                &&& #[trigger] is_outline(
                    all,
                    self.bytes(),
                    matches,
                    &config,
                    next_id.0 as int,
                )
                &&& items == if items_fit(all, self.bytes()) {
                    all
                } else {
                    Seq::empty()
                }
            };
        assert forall|k: int| 0 <= k < all.len() implies {
            &&& (#[trigger] all[k]).item_range.start == outline[k].item_range.start
            &&& all[k].item_range.end == outline[k].item_range.end
            &&& all[k].signature_range.start == outline[k].signature_range.start
            &&& all[k].signature_range.end == outline[k].signature_range.end
        } by {
            assert(describes_item(
                outline[k],
                self.bytes(),
                matches[outline_order(matches, &config)[k]],
                &config,
            ));
        }
        assert forall|k: int| 0 <= k < all.len() implies signature_fits(
            #[trigger] all[k],
            self.bytes(),
        ) by {
            assert(signature_fits(outline[k], self.bytes()));
        }
    }
}

/// The size of an excerpt is the number of its bytes, and each signature adds the number
/// of its own.
pub proof fn law_size_adds_up(excerpt: ExcerptRanges, more: ExcerptRanges, signature: Range<usize>)
    requires
        more.excerpt_range == excerpt.excerpt_range,
        more.parent_signature_ranges@ == excerpt.parent_signature_ranges@.push(signature),
        signature.start <= signature.end,
        excerpt.excerpt_range.start <= excerpt.excerpt_range.end,
    ensures
        more.total_size() == excerpt.total_size() + (signature.end - signature.start),
        excerpt.parent_signature_ranges@.len() == 0 ==> excerpt.total_size()
            == excerpt.excerpt_range.end - excerpt.excerpt_range.start,
{
    let signatures = excerpt.parent_signature_ranges@;
    assert(signatures.push(signature).drop_last() =~= signatures);
}

/// The signatures around an excerpt stand in the order of the items.
pub proof fn law_signatures_in_item_order(
    bytes: Seq<u8>,
    first: Seq<OutlineItem>,
    second: Seq<OutlineItem>,
    range: (int, int),
)
    ensures
        enclosing_signatures(bytes, first + second, range) == enclosing_signatures(
            bytes,
            first,
            range,
        ) + enclosing_signatures(bytes, second, range),
    decreases second.len(),
{
    if second.len() == 0 {
        assert(first + second =~= first);
        assert(enclosing_signatures(bytes, first, range) + Seq::<(int, int)>::empty()
            =~= enclosing_signatures(bytes, first, range));
    } else {
        law_signatures_in_item_order(bytes, first, second.drop_last(), range);
        assert((first + second).drop_last() =~= first + second.drop_last());
        let before = enclosing_signatures(bytes, first, range);
        let shorter = enclosing_signatures(bytes, second.drop_last(), range);
        assert((before + shorter).push(signature_lines(bytes, second.last())) =~= before
            + shorter.push(signature_lines(bytes, second.last())));
    }
}

/// What the signatures of an excerpt add to it is what the items around it cost, so an
/// excerpt is within the window if its bytes and that cost are.
pub proof fn law_signatures_add_their_cost(
    bytes: Seq<u8>,
    items: Seq<OutlineItem>,
    range: (int, int),
    signatures: Seq<Range<usize>>,
)
    requires
        pairs(signatures) == enclosing_signatures(bytes, items, range),
    ensures
        added_by(signatures, range) == signatures_cost(bytes, items, range),
{
    lemma_added_by(bytes, items, range, signatures);
}

impl ExcerptRangesInput<'_> {
    /// The cursor's line lies around the cursor, starts with the text or behind a newline,
    /// ends with the text or before a newline, and has no newline in it.
    pub proof fn law_cursor_line(&self)
        requires
            self.fits(),
        ensures
            ({
                let bytes = self.source.spec_bytes();
                let (start, end) = self.cursor_line();
                &&& 0 <= start <= self.cursor_offset <= end <= bytes.len()
                &&& start == 0 || bytes[start - 1] == NEWLINE
                &&& end == bytes.len() || bytes[end] == NEWLINE
                &&& forall|i: int| start <= i < end ==> bytes[i] != NEWLINE
            }),
    {
        let bytes = self.source.spec_bytes();
        encode_utf8_valid_utf8(self.source@);
        lemma_boundary_in_range(bytes, self.cursor_offset as int);
        lemma_line_start(bytes, self.cursor_offset as int);
        lemma_line_end(bytes, self.cursor_offset as int);
    }

    /// The lines of a node reach from the start of the line that it starts in to the end
    /// of the line that it ends in.
    pub proof fn law_node_lines(&self, i: int)
        ensures
            self.node_lines(i).0 == line_start(
                self.source.spec_bytes(),
                self.tree.nodes@[i].start_byte as int,
            ),
            self.node_lines(i).1 == line_end(
                self.source.spec_bytes(),
                self.tree.nodes@[i].end_byte as int,
            ),
    {
    }

    /// An excerpt is within the window if its bytes, and those of its signatures that lie
    /// outside it, are not more than the window has.
    pub proof fn law_within_window(&self, excerpt: ExcerptRanges)
        ensures
            self.within_window(excerpt) <==> excerpt.excerpt_range.end
                - excerpt.excerpt_range.start + added_by(
                excerpt.parent_signature_ranges@,
                (excerpt.excerpt_range.start as int, excerpt.excerpt_range.end as int),
            ) <= self.options.window_max_bytes,
    {
    }
}

} // verus!
