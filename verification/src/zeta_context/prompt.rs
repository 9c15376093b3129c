//! The prompt: which snippets fit a budget, and how they are written out.
use crate::paths::{is_portable, path_before, shows_path, strip_root};
use crate::stable_sort::{
    law_stable_order, lemma_sorted_items, stable_order, stable_sort,
    stably_sorted,
};
use crate::text::{
    has_prefix, has_suffix, lemma_encode_concat, lemma_line_end, lemma_line_start, slice, NEWLINE,
};
use crate::zeta_context::excerpt::{signature_lines, ExcerptRanges};
use crate::zeta_context::identifier_index::{lemma_located, signature_fits, IdentifierIndex};
use crate::zeta_context::identifier_references::{ScoredSnippet, SnippetStyle};
use crate::zeta_context::outline::OutlineId;
use crate::zeta_context::syntax::positions;
use crate::zeta_context::treesitter_util::expand_range_to_line_boundaries;
use crate::zeta_context::zed_code::texts;
use std::ops::Range;
use vstd::prelude::*;
use vstd::string::*;
use vstd::utf8::*;

verus! {

pub const CURSOR_MARKER: &'static str = "<|user_cursor_is_here|>";

/// Ends with a newline.
pub const EDITABLE_REGION_START_MARKER: &'static str = "<|editable_region_start|>\n";

/// Ends with a newline.
pub const EDITABLE_REGION_END_MARKER: &'static str = "<|editable_region_end|>\n";

/// Ranges of one file that lie less than this many bytes apart are written as one.
pub const MERGE_THRESHOLD: usize = 4;

/// A part of a source file with texts to insert into it and after it.
pub struct SourceRangeWithInsertions<'a> {
    pub range: Range<usize>,
    /// Offsets in the file, and what stands there.
    pub insertions: Vec<(usize, &'a str)>,
    /// What stands after the range.
    pub end_insertions: Vec<&'a str>,
}

/// The model of a part of a source file: where it starts and ends, and the
/// encodings of what is inserted.
#[verifier::ext_equal]
pub struct Piece {
    pub start: int,
    pub end: int,
    pub insertions: Seq<(int, Seq<u8>)>,
    pub end_insertions: Seq<Seq<u8>>,
}

/// The encodings of texts.
pub open spec fn encoded_texts(texts: Seq<&str>) -> Seq<Seq<u8>> {
    texts.map_values(|s: &str| s.spec_bytes())
}

/// The encodings of inserted texts with their offsets.
pub open spec fn encoded_insertions(insertions: Seq<(usize, &str)>) -> Seq<(int, Seq<u8>)> {
    insertions.map_values(|i: (usize, &str)| (i.0 as int, i.1.spec_bytes()))
}

impl<'a> View for SourceRangeWithInsertions<'a> {
    type V = Piece;

    open spec fn view(&self) -> Piece {
        Piece {
            start: self.range.start as int,
            end: self.range.end as int,
            insertions: encoded_insertions(self.insertions@),
            end_insertions: encoded_texts(self.end_insertions@),
        }
    }
}

impl<'a> SourceRangeWithInsertions<'a> {
    /// A part of a file with nothing inserted.
    pub fn within_source(range: Range<usize>, _source_file: &str) -> (r: Self)
        ensures
            r@ == plain_piece(range.start as int, range.end as int),
            r.range == range,
    {
        let r = SourceRangeWithInsertions {
            range,
            insertions: Vec::new(),
            end_insertions: Vec::new(),
        };
        assert(r@ =~= plain_piece(range.start as int, range.end as int));
        r
    }
}

/// A part of a file with nothing inserted.
pub open spec fn plain_piece(start: int, end: int) -> Piece {
    Piece { start, end, insertions: Seq::empty(), end_insertions: Seq::empty() }
}

/// The models of several parts.
pub open spec fn pieces_of(ranges: Seq<SourceRangeWithInsertions<'_>>) -> Seq<Piece> {
    ranges.map_values(|r: SourceRangeWithInsertions<'_>| r@)
}

/// The later of two positions.
pub open spec fn later(a: int, b: int) -> int {
    if a < b {
        b
    } else {
        a
    }
}

/// Whether joining a part that ends at `end` into the part `last` moves the
/// end of `last` within a text of `len` bytes.
pub open spec fn moves_end(last: Piece, end: int, len: int) -> bool {
    last.end < len && last.end < later(last.end, end)
}

/// Two neighbouring parts as one. What stood after the first stands after its
/// line if the second goes on beyond it.
pub open spec fn joined(last: Piece, next: Piece, len: int) -> Piece {
    if moves_end(last, next.end, len) {
        Piece {
            start: last.start,
            end: later(last.end, next.end),
            insertions: last.insertions + last.end_insertions.map_values(
                |text: Seq<u8>| (last.end + 1, text),
            ) + next.insertions,
            end_insertions: next.end_insertions,
        }
    } else {
        Piece {
            start: last.start,
            end: later(last.end, next.end),
            insertions: last.insertions + next.insertions,
            end_insertions: last.end_insertions + next.end_insertions,
        }
    }
}

/// Whether a part starts close enough to the last of the merged ones.
pub open spec fn joins(merged: Seq<Piece>, next: Piece, threshold: int) -> bool {
    merged.len() > 0 && next.start < merged.last().end + threshold
}

/// Parts merged from left to right.
pub open spec fn merged(pieces: Seq<Piece>, threshold: int, len: int) -> Seq<Piece>
    decreases pieces.len(),
{
    if pieces.len() == 0 {
        Seq::empty()
    } else {
        let before = merged(pieces.drop_last(), threshold, len);
        let next = pieces.last();
        if joins(before, next, threshold) {
            before.drop_last().push(joined(before.last(), next, len))
        } else {
            before.push(next)
        }
    }
}

/// Whether every part that a merge extends ends before a newline.
pub open spec fn joins_at_newlines(pieces: Seq<Piece>, threshold: int, bytes: Seq<u8>) -> bool
    decreases pieces.len(),
{
    pieces.len() > 0 ==> {
        let before = merged(pieces.drop_last(), threshold, bytes.len() as int);
        let next = pieces.last();
        &&& joins_at_newlines(pieces.drop_last(), threshold, bytes)
        &&& joins(before, next, threshold) && moves_end(
            before.last(),
            next.end,
            bytes.len() as int,
        ) ==> bytes[before.last().end] == NEWLINE
    }
}

/// Whether insertions stand in order between `from` and the end of a part, and
/// between characters.
pub open spec fn insertions_fit(
    insertions: Seq<(int, Seq<u8>)>,
    from: int,
    end: int,
    bytes: Seq<u8>,
) -> bool
    decreases insertions.len(),
{
    if insertions.len() == 0 {
        from <= end
    } else {
        &&& from <= insertions[0].0 <= end
        &&& is_char_boundary(bytes, insertions[0].0)
        &&& insertions_fit(insertions.drop_first(), insertions[0].0, end, bytes)
    }
}

/// Whether a part can be written out.
pub open spec fn piece_fits(piece: Piece, bytes: Seq<u8>) -> bool {
    &&& piece.start <= piece.end
    &&& is_char_boundary(bytes, piece.start)
    &&& is_char_boundary(bytes, piece.end)
    &&& insertions_fit(piece.insertions, piece.start, piece.end, bytes)
}

/// The text from `from` to `end` with the insertions at their places.
pub open spec fn with_insertions(
    bytes: Seq<u8>,
    insertions: Seq<(int, Seq<u8>)>,
    from: int,
    end: int,
) -> Seq<u8>
    decreases insertions.len(),
{
    if insertions.len() == 0 {
        bytes.subrange(from, end)
    } else {
        bytes.subrange(from, insertions[0].0) + insertions[0].1 + with_insertions(
            bytes,
            insertions.drop_first(),
            insertions[0].0,
            end,
        )
    }
}

/// Texts one after another.
pub open spec fn concatenated(texts: Seq<Seq<u8>>) -> Seq<u8>
    decreases texts.len(),
{
    if texts.len() == 0 {
        Seq::empty()
    } else {
        texts[0] + concatenated(texts.drop_first())
    }
}

/// The line that stands for omitted lines.
pub open spec fn ellipsis() -> Seq<u8> {
    "...\n".spec_bytes()
}

/// A part as it is written: an ellipsis where it is not the start of the file,
/// the text with the insertions, a newline where the text lacks one, what
/// stands after the part, and an ellipsis where it is the last part and not
/// the end of the file.
pub open spec fn written_piece(piece: Piece, bytes: Seq<u8>, last: bool) -> Seq<u8> {
    (if piece.start > 0 {
        ellipsis()
    } else {
        Seq::empty()
    }) + with_insertions(bytes, piece.insertions, piece.start, piece.end) + (if piece.end
        > piece.start && bytes[piece.end - 1] == NEWLINE {
        Seq::empty()
    } else {
        "\n".spec_bytes()
    }) + concatenated(piece.end_insertions) + (if last && piece.end < bytes.len() {
        ellipsis()
    } else {
        Seq::empty()
    })
}

/// The parts from `k` on as they are written.
pub open spec fn written_from(pieces: Seq<Piece>, bytes: Seq<u8>, k: int) -> Seq<u8>
    decreases pieces.len() - k,
{
    if k >= pieces.len() {
        Seq::empty()
    } else {
        written_piece(pieces[k], bytes, k == pieces.len() - 1) + written_from(
            pieces,
            bytes,
            k + 1,
        )
    }
}

/// Where parts start.
pub open spec fn piece_starts(pieces: Seq<Piece>) -> Seq<usize> {
    pieces.map_values(|piece: Piece| piece.start as usize)
}

/// Parts of a file in the order of their starts, merged where they are close.
pub open spec fn arranged(pieces: Seq<Piece>, threshold: int, len: int) -> Seq<Piece> {
    merged(stably_sorted(pieces, piece_starts(pieces)), threshold, len)
}

/// Whether parts of a file can be arranged and written out.
pub open spec fn can_write(pieces: Seq<Piece>, threshold: int, bytes: Seq<u8>) -> bool {
    let all = arranged(pieces, threshold, bytes.len() as int);
    &&& joins_at_newlines(stably_sorted(pieces, piece_starts(pieces)), threshold, bytes)
    &&& forall|k: int| 0 <= k < all.len() ==> piece_fits(#[trigger] all[k], bytes)
    &&& forall|k: int|
        0 <= k < pieces.len() ==> (#[trigger] pieces[k]).end + threshold <= usize::MAX
}

/// Appends the text of a part with its insertions.
fn push_with_insertions(
    output: &mut String,
    source: &str,
    insertions: &Vec<(usize, &str)>,
    start: usize,
    end: usize,
)
    requires
        is_char_boundary(source.spec_bytes(), start as int),
        is_char_boundary(source.spec_bytes(), end as int),
        insertions_fit(
            encoded_insertions(insertions@),
            start as int,
            end as int,
            source.spec_bytes(),
        ),
    ensures
        encode_utf8(final(output)@) == encode_utf8(old(output)@) + with_insertions(
            source.spec_bytes(),
            encoded_insertions(insertions@),
            start as int,
            end as int,
        ),
{
    let ghost bytes = source.spec_bytes();
    let ghost all = encoded_insertions(insertions@);
    let ghost before = encode_utf8(output@);
    let mut last_pos: usize = start;
    let mut k: usize = 0;
    assert(all.skip(0) =~= all);
    while k < insertions.len()
        invariant
            k <= insertions@.len(),
            bytes == source.spec_bytes(),
            all == encoded_insertions(insertions@),
            is_char_boundary(bytes, last_pos as int),
            is_char_boundary(bytes, end as int),
            insertions_fit(all.skip(k as int), last_pos as int, end as int, bytes),
            before + with_insertions(bytes, all, start as int, end as int) == encode_utf8(output@)
                + with_insertions(bytes, all.skip(k as int), last_pos as int, end as int),
        decreases insertions@.len() - k,
    {
        let (offset, insertion) = insertions[k];
        let ghost rest = all.skip(k as int);
        assert(rest[0] == (offset as int, insertion.spec_bytes()));
        assert(rest.drop_first() =~= all.skip(k + 1));
        let part = slice(source, last_pos, offset);
        let ghost sofar = output@;
        output.append(part);
        output.append(insertion);
        proof {
            lemma_encode_concat(sofar, part@);
            lemma_encode_concat(sofar + part@, insertion@);
            assert(encode_utf8(sofar) + with_insertions(bytes, rest, last_pos as int, end as int)
                =~= encode_utf8(output@) + with_insertions(
                bytes,
                all.skip(k + 1),
                offset as int,
                end as int,
            ));
        }
        last_pos = offset;
        k = k + 1;
    }
    let ghost sofar = output@;
    let part = slice(source, last_pos, end);
    output.append(part);
    proof {
        lemma_encode_concat(sofar, part@);
        assert(all.skip(k as int).len() == 0);
        assert(encode_utf8(output@) =~= before + with_insertions(
            bytes,
            all,
            start as int,
            end as int,
        ));
    }
}

/// Appends texts.
fn push_all(output: &mut String, texts: &Vec<&str>)
    ensures
        encode_utf8(final(output)@) == encode_utf8(old(output)@) + concatenated(
            encoded_texts(texts@),
        ),
{
    let ghost all = encoded_texts(texts@);
    let ghost before = encode_utf8(output@);
    let mut k: usize = 0;
    assert(all.skip(0) =~= all);
    while k < texts.len()
        invariant
            k <= texts@.len(),
            all == encoded_texts(texts@),
            before + concatenated(all) == encode_utf8(output@) + concatenated(all.skip(k as int)),
        decreases texts@.len() - k,
    {
        let text = texts[k];
        assert(all.skip(k as int)[0] == text.spec_bytes());
        assert(all.skip(k as int).drop_first() =~= all.skip(k + 1));
        let ghost sofar = output@;
        output.append(text);
        proof {
            lemma_encode_concat(sofar, text@);
            assert(encode_utf8(sofar) + concatenated(all.skip(k as int)) =~= encode_utf8(output@)
                + concatenated(all.skip(k + 1)));
        }
        k = k + 1;
    }
    assert(encode_utf8(output@) =~= before + concatenated(all));
}

/// Appends a part as it is written.
fn push_piece(output: &mut String, source: &str, piece: &SourceRangeWithInsertions<'_>, last: bool)
    requires
        piece_fits(piece@, source.spec_bytes()),
    ensures
        encode_utf8(final(output)@) == encode_utf8(old(output)@) + written_piece(
            piece@,
            source.spec_bytes(),
            last,
        ),
{
    let ghost bytes = source.spec_bytes();
    let ghost start = output@;
    proof {
        encode_utf8_valid_utf8(source@);
        lemma_encode_concat(start, "...\n"@);
    }
    if piece.range.start > 0 {
        output.append("...\n");
    }
    let ghost opened = output@;
    push_with_insertions(output, source, &piece.insertions, piece.range.start, piece.range.end);
    let ghost body = output@;
    let text = source.as_bytes();
    let ends_line = piece.range.end > piece.range.start && text[piece.range.end - 1] == NEWLINE;
    proof {
        lemma_encode_concat(body, "\n"@);
    }
    if !ends_line {
        output.append("\n");
    }
    push_all(output, &piece.end_insertions);
    let ghost closed = output@;
    proof {
        lemma_encode_concat(closed, "...\n"@);
    }
    if last && piece.range.end < text.len() {
        output.append("...\n");
    }
    assert(encode_utf8(output@) =~= encode_utf8(start) + written_piece(piece@, bytes, last));
}

/// Sorting parts is sorting their models.
proof fn lemma_sorted_pieces(ranges: Seq<SourceRangeWithInsertions<'_>>, keys: Seq<usize>)
    requires
        ranges.len() == keys.len(),
    ensures
        pieces_of(stably_sorted(ranges, keys)) == stably_sorted(pieces_of(ranges), keys),
{
    law_stable_order(keys, keys.len());
    assert(pieces_of(stably_sorted(ranges, keys)) =~= stably_sorted(pieces_of(ranges), keys));
}

/// Joins a part into the one before it.
fn join<'a>(
    last: SourceRangeWithInsertions<'a>,
    next: SourceRangeWithInsertions<'a>,
    len: usize,
) -> (r: SourceRangeWithInsertions<'a>)
    ensures
        r@ == joined(last@, next@, len as int),
        r.range.start == last.range.start,
        r.range.end == last.range.end || r.range.end == next.range.end,
{
    let ghost a = last@;
    let ghost b = next@;
    let mut last = last;
    let mut next = next;
    let new_end: usize = if last.range.end < next.range.end {
        next.range.end
    } else {
        last.range.end
    };
    if last.range.end < len && last.range.end < new_end {
        let offset: usize = last.range.end + 1;
        let ghost moved = a.end_insertions.map_values(|text: Seq<u8>| (a.end + 1, text));
        let mut k: usize = 0;
        assert(moved.take(0) =~= Seq::<(int, Seq<u8>)>::empty());
        assert(encoded_insertions(last.insertions@) =~= a.insertions + moved.take(0));
        while k < last.end_insertions.len()
            invariant
                k <= last.end_insertions@.len(),
                offset == a.end + 1,
                a.end_insertions == encoded_texts(last.end_insertions@),
                moved == a.end_insertions.map_values(|text: Seq<u8>| (a.end + 1, text)),
                encoded_insertions(last.insertions@) == a.insertions + moved.take(k as int),
                last.range.start == a.start,
                last.range.end == a.end,
            decreases last.end_insertions@.len() - k,
        {
            let ghost before = last.insertions@;
            let text = last.end_insertions[k];
            last.insertions.push((offset, text));
            assert(encoded_insertions(last.insertions@) =~= encoded_insertions(before).push(
                (offset as int, text.spec_bytes()),
            ));
            assert(moved[k as int] == (offset as int, text.spec_bytes()));
            assert(moved.take(k + 1) =~= moved.take(k as int).push(moved[k as int]));
            assert(encoded_insertions(last.insertions@) =~= a.insertions + moved.take(k + 1));
            k = k + 1;
        }
        assert(moved.take(k as int) =~= moved);
        let ghost before = last.insertions@;
        last.insertions.append(&mut next.insertions);
        assert(encoded_insertions(last.insertions@) =~= encoded_insertions(before) + b.insertions);
        let r = SourceRangeWithInsertions {
            range: last.range.start..new_end,
            insertions: last.insertions,
            end_insertions: next.end_insertions,
        };
        assert(r@ =~= joined(a, b, len as int));
        r
    } else {
        let ghost texts = last.end_insertions@;
        let ghost insertions = last.insertions@;
        last.end_insertions.append(&mut next.end_insertions);
        last.insertions.append(&mut next.insertions);
        assert(encoded_texts(last.end_insertions@) =~= encoded_texts(texts) + b.end_insertions);
        assert(encoded_insertions(last.insertions@) =~= encoded_insertions(insertions)
            + b.insertions);
        let r = SourceRangeWithInsertions {
            range: last.range.start..new_end,
            insertions: last.insertions,
            end_insertions: last.end_insertions,
        };
        assert(r@ =~= joined(a, b, len as int));
        r
    }
}

/// Writes parts of a file in the order of their starts. Parts that lie less than
/// `merge_threshold` bytes apart are written as one, others are separated by
/// an ellipsis.
pub fn add_ellipsis_separated_ranges<'a>(
    output: &mut String,
    source: &str,
    source_ranges: Vec<SourceRangeWithInsertions<'a>>,
    merge_threshold: usize,
)
    requires
        source_ranges@.len() > 0,
        can_write(
            pieces_of(source_ranges@),
            merge_threshold as int,
            source.spec_bytes(),
        ),
    ensures
        encode_utf8(final(output)@) == encode_utf8(old(output)@) + written_from(
            arranged(
                pieces_of(source_ranges@),
                merge_threshold as int,
                source.spec_bytes().len() as int,
            ),
            source.spec_bytes(),
            0,
        ),
{
    let ghost bytes = source.spec_bytes();
    let ghost threshold = merge_threshold as int;
    let ghost given = source_ranges@;
    let len: usize = source.as_bytes().len();
    let mut keys: Vec<usize> = Vec::new();
    let mut k: usize = 0;
    while k < source_ranges.len()
        invariant
            k <= source_ranges@.len(),
            source_ranges@ == given,
            keys@.len() == k,
            forall|j: int| 0 <= j < k ==> keys@[j] == given[j].range.start,
        decreases source_ranges@.len() - k,
    {
        keys.push(source_ranges[k].range.start);
        k = k + 1;
    }
    let ghost starts = piece_starts(pieces_of(given));
    assert(keys@ =~= starts);
    let mut source_ranges = source_ranges;
    stable_sort(&mut source_ranges, &mut keys);
    let ghost sorted = pieces_of(source_ranges@);
    let ghost count = sorted.len();
    proof {
        lemma_sorted_pieces(given, starts);
        lemma_sorted_items(given, starts);
        assert forall|j: int| 0 <= j < source_ranges@.len() implies source_ranges@[j].range.end
            + threshold <= usize::MAX by {
            let i = stable_order(starts, starts.len())[j];
            assert(source_ranges@[j] == given[i]);
            assert(pieces_of(given)[i].end + threshold <= usize::MAX);
        }
    }
    let mut merged_ranges: Vec<SourceRangeWithInsertions<'a>> = Vec::new();
    let ghost mut n: int = 0;
    assert(sorted.take(0) =~= Seq::<Piece>::empty());
    assert(pieces_of(merged_ranges@) =~= Seq::<Piece>::empty());
    assert(sorted.skip(0) =~= sorted);
    while source_ranges.len() > 0
        invariant
            len == bytes.len(),
            threshold == merge_threshold,
            0 <= n <= sorted.len(),
            source_ranges@.len() == sorted.len() - n,
            pieces_of(source_ranges@) == sorted.skip(n),
            pieces_of(merged_ranges@) == merged(sorted.take(n), threshold, len as int),
            n > 0 ==> merged_ranges@.len() > 0,
            forall|j: int|
                0 <= j < source_ranges@.len() ==> (#[trigger] source_ranges@[j]).range.end
                    + threshold <= usize::MAX,
            forall|j: int|
                0 <= j < merged_ranges@.len() ==> (#[trigger] merged_ranges@[j]).range.end
                    + threshold <= usize::MAX,
        decreases source_ranges@.len(),
    {
        let ghost rest = source_ranges@;
        let ghost before = merged_ranges@;
        let next = source_ranges.remove(0);
        proof {
            assert(next@ == pieces_of(rest)[0]);
            assert(next@ == sorted[n]);
            assert forall|j: int| 0 <= j < source_ranges@.len() implies pieces_of(
                source_ranges@,
            )[j] == sorted.skip(n + 1)[j] by {
                assert(source_ranges@[j] == rest[j + 1]);
                assert(pieces_of(rest)[j + 1] == sorted.skip(n)[j + 1]);
            }
            assert(pieces_of(source_ranges@) =~= sorted.skip(n + 1));
            assert(sorted.take(n + 1).drop_last() =~= sorted.take(n));
            assert(sorted.take(n + 1).last() == next@);
        }
        match merged_ranges.pop() {
            Some(last) => {
                assert(last@ == pieces_of(before).last());
                assert(pieces_of(merged_ranges@) =~= pieces_of(before).drop_last());
                if next.range.start < last.range.end + merge_threshold {
                    let both = join(last, next, len);
                    let ghost kept = pieces_of(merged_ranges@);
                    let ghost added = both@;
                    merged_ranges.push(both);
                    assert(pieces_of(merged_ranges@) =~= kept.push(added));
                } else {
                    let ghost kept = pieces_of(merged_ranges@);
                    let ghost (a, b) = (last@, next@);
                    merged_ranges.push(last);
                    merged_ranges.push(next);
                    assert(kept.push(a) =~= pieces_of(before));
                    assert(pieces_of(merged_ranges@) =~= pieces_of(before).push(b));
                }
            },
            None => {
                let ghost b = next@;
                merged_ranges.push(next);
                assert(pieces_of(merged_ranges@) =~= pieces_of(before).push(b));
            },
        }
        proof {
            n = n + 1;
        }
    }
    let ghost all = pieces_of(merged_ranges@);
    let ghost start = encode_utf8(output@);
    assert(sorted.take(n) =~= sorted);
    assert(all == arranged(pieces_of(given), threshold, bytes.len() as int));
    assert(start + written_from(all, bytes, 0) =~= encode_utf8(output@) + written_from(
        all,
        bytes,
        0,
    ));
    let mut i: usize = 0;
    while i < merged_ranges.len()
        invariant
            i <= merged_ranges@.len(),
            bytes == source.spec_bytes(),
            all == pieces_of(merged_ranges@),
            forall|k: int| 0 <= k < all.len() ==> piece_fits(#[trigger] all[k], bytes),
            start + written_from(all, bytes, 0) == encode_utf8(output@) + written_from(
                all,
                bytes,
                i as int,
            ),
        decreases merged_ranges@.len() - i,
    {
        assert(all[i as int] == merged_ranges@[i as int]@);
        let last = i == merged_ranges.len() - 1;
        let ghost sofar = encode_utf8(output@);
        push_piece(output, source, &merged_ranges[i], last);
        assert(sofar + written_from(all, bytes, i as int) =~= encode_utf8(output@) + written_from(
            all,
            bytes,
            i + 1,
        ));
        i = i + 1;
    }
    assert(encode_utf8(output@) =~= start + written_from(all, bytes, 0));
}

/// A snippet chosen for a prompt: its position among the scored ones, the style
/// it is shown in and the bytes that takes.
#[derive(Clone, Copy, Debug, PartialEq, Eq, Structural)]
pub struct PlannedSnippet {
    pub scored_snippet: usize,
    pub style: SnippetStyle,
    pub budget_used: usize,
}

/// What a prompt shows.
pub struct PlannedPrompt {
    pub scored: Vec<ScoredSnippet>,
    pub snippets: Vec<PlannedSnippet>,
    pub excerpt_file: usize,
    pub excerpt_ranges: ExcerptRanges,
    pub cursor_offset: usize,
    pub root_path: String,
}

/// The lines of an item's signature in its own file.
pub open spec fn parent_lines(index: &IdentifierIndex, id: OutlineId) -> (int, int) {
    signature_lines(index.source_of((index.located(id)->0).0), index.item_of(id))
}

/// Returns the byte range of the signature for the parent outline item expanded to line boundaries.
pub(crate) fn parent_signature(index: &IdentifierIndex, id: OutlineId) -> (r: Option<Range<usize>>)
    requires
        index.fits(),
    ensures
        match r {
            Some(range) => {
                &&& index.located(id) is Some
                &&& (range.start as int, range.end as int) == parent_lines(index, id)
                &&& range.start <= range.end
            },
            None => index.located(id) is None,
        },
{
    match index.locate(id) {
        Some((f, k)) => {
            let file = &index.files[f];
            let item = &file.items[k];
            assert(signature_fits(index.files@[f as int].items@[k as int], index.source_of(f as int)));
            let signature = item.signature_range.start..item.signature_range.end;
            Some(expand_range_to_line_boundaries(file.source.as_str(), signature))
        },
        None => None,
    }
}

/// The lines of a signature are no fewer than none.
pub proof fn lemma_parent_lines(index: &IdentifierIndex, id: OutlineId)
    requires
        index.fits(),
        index.located(id) is Some,
    ensures
        parent_lines(index, id).0 <= parent_lines(index, id).1,
{
    lemma_located(index, id);
    let (f, k) = index.located(id)->0;
    let item = index.files@[f].items@[k];
    let bytes = index.source_of(f);
    assert(signature_fits(item, bytes));
    encode_utf8_valid_utf8(index.files@[f].source@);
    lemma_line_start(bytes, item.signature_range.start as int);
    lemma_line_end(bytes, item.signature_range.end as int);
}

/// The parts for the signatures of the first `n` parents that are in the index.
pub open spec fn parent_pieces(index: &IdentifierIndex, parents: Seq<OutlineId>, n: nat) -> Seq<
    Piece,
>
    decreases n,
{
    if n == 0 {
        Seq::empty()
    } else {
        let before = parent_pieces(index, parents, (n - 1) as nat);
        if index.located(parents[n - 1]) is Some {
            let lines = parent_lines(index, parents[n - 1]);
            before.push(plain_piece(lines.0, lines.1))
        } else {
            before
        }
    }
}

impl PlannedPrompt {
    /// The scored snippet behind a planned one.
    pub open spec fn scored_of(&self, j: int) -> ScoredSnippet {
        self.scored@[self.snippets@[j].scored_snippet as int]
    }

    /// The planned snippets among the first `n` that are defined in a file.
    pub open spec fn group(&self, f: int, n: nat) -> Seq<int>
        decreases n,
    {
        if n == 0 {
            Seq::empty()
        } else {
            let before = self.group(f, (n - 1) as nat);
            if self.scored_of(n - 1).definition_file == f {
                before.push(n - 1)
            } else {
                before
            }
        }
    }

    /// Where the lines of planned snippets start.
    pub open spec fn group_starts(&self, index: &IdentifierIndex, group: Seq<int>) -> Seq<usize> {
        group.map_values(
            |j: int| self.scored_of(j).lines(index, self.snippets@[j].style).0 as usize,
        )
    }

    /// The parts for planned snippets: the lines of each, then the signatures
    /// of its parents.
    pub open spec fn group_pieces(&self, index: &IdentifierIndex, group: Seq<int>) -> Seq<Piece>
        decreases group.len(),
    {
        if group.len() == 0 {
            Seq::empty()
        } else {
            let j = group.last();
            let lines = self.scored_of(j).lines(index, self.snippets@[j].style);
            let parents = self.scored_of(j).definition.parents@;
            self.group_pieces(index, group.drop_last()).push(plain_piece(lines.0, lines.1))
                + parent_pieces(index, parents, parents.len())
        }
    }

    /// The part for the excerpt, with the markers of the editable region and of
    /// the cursor.
    pub open spec fn excerpt_piece(&self) -> Piece {
        let range = self.excerpt_ranges.excerpt_range;
        Piece {
            start: range.start as int,
            end: range.end as int,
            insertions: seq![
                (range.start as int, EDITABLE_REGION_START_MARKER.spec_bytes()),
                (self.cursor_offset as int, CURSOR_MARKER.spec_bytes()),
            ],
            end_insertions: seq![EDITABLE_REGION_END_MARKER.spec_bytes()],
        }
    }

    /// The parts of a file that the prompt shows.
    pub open spec fn file_pieces(&self, index: &IdentifierIndex, f: int) -> Seq<Piece> {
        let group = self.group(f, self.snippets@.len());
        let sorted = stably_sorted(group, self.group_starts(index, group));
        self.group_pieces(index, sorted) + (if f == self.excerpt_file {
            seq![self.excerpt_piece()] + self.excerpt_ranges.parent_signature_ranges@.map_values(
                |r: Range<usize>| plain_piece(r.start as int, r.end as int),
            )
        } else {
            Seq::empty()
        })
    }

    /// A file as the prompt shows it, under the given name: nothing where it
    /// shows no part of it.
    pub open spec fn written_file(
        &self,
        index: &IdentifierIndex,
        f: int,
        name: Seq<char>,
    ) -> Seq<u8> {
        let pieces = self.file_pieces(index, f);
        let bytes = index.source_of(f);
        if pieces.len() == 0 {
            Seq::empty()
        } else {
            "```".spec_bytes() + encode_utf8(name) + "\n".spec_bytes() + written_from(
                arranged(pieces, MERGE_THRESHOLD as int, bytes.len() as int),
                bytes,
                0,
            ) + "```\n\n".spec_bytes()
        }
    }

    /// The files before `f`, but for the one with the excerpt.
    pub open spec fn written_files(
        &self,
        index: &IdentifierIndex,
        names: Seq<Seq<char>>,
        f: nat,
    ) -> Seq<u8>
        decreases f,
    {
        if f == 0 {
            Seq::empty()
        } else {
            self.written_files(index, names, (f - 1) as nat) + (if f - 1 == self.excerpt_file {
                Seq::empty()
            } else {
                self.written_file(index, f - 1, names[f - 1])
            })
        }
    }

    /// The whole prompt: every file in the order of the paths, the one with the
    /// excerpt last.
    pub open spec fn written(&self, index: &IdentifierIndex, names: Seq<Seq<char>>) -> Seq<u8> {
        self.written_files(index, names, index.files@.len()) + self.written_file(
            index,
            self.excerpt_file as int,
            names[self.excerpt_file as int],
        )
    }

    /// Whether what the prompt shows lies in the files of the index and can be
    /// written out.
    pub open spec fn fits(&self, index: &IdentifierIndex) -> bool {
        &&& index.fits()
        &&& self.excerpt_file < index.files@.len()
        &&& forall|j: int|
            0 <= j < self.snippets@.len() ==> {
                &&& (#[trigger] self.snippets@[j]).scored_snippet < self.scored@.len()
                &&& self.scored_of(j).fits(index)
            }
        &&& forall|f: int|
            0 <= f < index.files@.len() ==> can_write(
                #[trigger] self.file_pieces(index, f),
                MERGE_THRESHOLD as int,
                index.source_of(f),
            )
    }

    /// Appends the parts for the parents of an item.
    fn push_parents(
        index: &IdentifierIndex,
        parents: &Vec<OutlineId>,
        source: &str,
        ranges: &mut Vec<SourceRangeWithInsertions<'static>>,
    )
        requires
            index.fits(),
        ensures
            pieces_of(final(ranges)@) == pieces_of(old(ranges)@) + parent_pieces(
                index,
                parents@,
                parents@.len(),
            ),
    {
        let ghost before = pieces_of(ranges@);
        let mut k: usize = 0;
        assert(before =~= before + parent_pieces(index, parents@, 0));
        while k < parents.len()
            invariant
                k <= parents@.len(),
                index.fits(),
                pieces_of(ranges@) == before + parent_pieces(index, parents@, k as nat),
            decreases parents@.len() - k,
        {
            let ghost sofar = pieces_of(ranges@);
            if let Some(range) = parent_signature(index, parents[k]) {
                let part = SourceRangeWithInsertions::within_source(range, source);
                let ghost added = part@;
                ranges.push(part);
                assert(pieces_of(ranges@) =~= sofar.push(added));
            }
            assert(pieces_of(ranges@) =~= before + parent_pieces(index, parents@, (k + 1) as nat));
            k = k + 1;
        }
    }

    /// The parts of a file that the prompt shows.
    fn file_ranges(&self, index: &IdentifierIndex, f: usize) -> (ranges: Vec<
        SourceRangeWithInsertions<'static>,
    >)
        requires
            self.fits(index),
            f < index.files@.len(),
        ensures
            pieces_of(ranges@) == self.file_pieces(index, f as int),
    {
        let source = index.files[f].source.as_str();
        let mut group: Vec<usize> = Vec::new();
        let mut starts: Vec<usize> = Vec::new();
        let mut j: usize = 0;
        assert(positions(group@) =~= self.group(f as int, 0));
        assert(starts@ =~= self.group_starts(index, self.group(f as int, 0)));
        while j < self.snippets.len()
            invariant
                j <= self.snippets@.len(),
                self.fits(index),
                positions(group@) == self.group(f as int, j as nat),
                starts@ == self.group_starts(index, positions(group@)),
                forall|k: int|
                    0 <= k < group@.len() ==> #[trigger] group@[k] < self.snippets@.len(),
            decreases self.snippets@.len() - j,
        {
            let planned = self.snippets[j];
            assert(self.snippets@[j as int] == planned);
            let scored = &self.scored[planned.scored_snippet];
            assert(*scored == self.scored_of(j as int));
            let ghost before = positions(group@);
            if scored.definition_file == f {
                starts.push(scored.line_range(index, planned.style).start);
                group.push(j);
                assert(positions(group@) =~= before.push(j as int));
                assert(starts@ =~= self.group_starts(index, positions(group@)));
            }
            j = j + 1;
        }
        let ghost unsorted = group@;
        let ghost keys = starts@;
        stable_sort(&mut group, &mut starts);
        let ghost sorted = positions(group@);
        proof {
            law_stable_order(keys, keys.len());
            lemma_sorted_items(unsorted, keys);
            assert(sorted =~= stably_sorted(positions(unsorted), keys));
            assert forall|k: int| 0 <= k < group@.len() implies #[trigger] group@[k]
                < self.snippets@.len() by {
                let i = stable_order(keys, keys.len())[k];
                assert(group@[k] == unsorted[i]);
            }
        }
        let mut ranges: Vec<SourceRangeWithInsertions<'static>> = Vec::new();
        let mut k: usize = 0;
        assert(pieces_of(ranges@) =~= self.group_pieces(index, sorted.take(0)));
        while k < group.len()
            invariant
                k <= group@.len(),
                self.fits(index),
                sorted == positions(group@),
                forall|k: int|
                    0 <= k < group@.len() ==> #[trigger] group@[k] < self.snippets@.len(),
                pieces_of(ranges@) == self.group_pieces(index, sorted.take(k as int)),
            decreases group@.len() - k,
        {
            let planned = self.snippets[group[k]];
            assert(self.snippets@[sorted[k as int]] == planned);
            let scored = &self.scored[planned.scored_snippet];
            assert(*scored == self.scored_of(sorted[k as int]));
            assert(sorted.take(k + 1).drop_last() =~= sorted.take(k as int));
            let ghost before = pieces_of(ranges@);
            let part = SourceRangeWithInsertions::within_source(
                scored.line_range(index, planned.style),
                source,
            );
            let ghost added = part@;
            ranges.push(part);
            assert(pieces_of(ranges@) =~= before.push(added));
            Self::push_parents(index, &scored.definition.parents, source, &mut ranges);
            k = k + 1;
        }
        assert(sorted.take(k as int) =~= sorted);
        let ghost grouped = pieces_of(ranges@);
        if f == self.excerpt_file {
            let excerpt = &self.excerpt_ranges.excerpt_range;
            let mut insertions: Vec<(usize, &'static str)> = Vec::new();
            insertions.push((excerpt.start, EDITABLE_REGION_START_MARKER));
            insertions.push((self.cursor_offset, CURSOR_MARKER));
            let mut end_insertions: Vec<&'static str> = Vec::new();
            end_insertions.push(EDITABLE_REGION_END_MARKER);
            let part = SourceRangeWithInsertions {
                range: excerpt.start..excerpt.end,
                insertions,
                end_insertions,
            };
            assert(part@ =~= self.excerpt_piece());
            ranges.push(part);
            assert(pieces_of(ranges@) =~= grouped.push(self.excerpt_piece()));
            let signatures = &self.excerpt_ranges.parent_signature_ranges;
            let ghost plain = signatures@.map_values(
                |r: Range<usize>| plain_piece(r.start as int, r.end as int),
            );
            let mut k: usize = 0;
            assert(pieces_of(ranges@) =~= grouped.push(self.excerpt_piece()) + plain.take(0));
            while k < signatures.len()
                invariant
                    k <= signatures@.len(),
                    plain == signatures@.map_values(
                        |r: Range<usize>| plain_piece(r.start as int, r.end as int),
                    ),
                    pieces_of(ranges@) == grouped.push(self.excerpt_piece()) + plain.take(k as int),
                decreases signatures@.len() - k,
            {
                let ghost before = pieces_of(ranges@);
                let range = signatures[k].start..signatures[k].end;
                let part = SourceRangeWithInsertions::within_source(range, source);
                let ghost added = part@;
                ranges.push(part);
                assert(pieces_of(ranges@) =~= before.push(added));
                assert(added == plain[k as int]);
                assert(pieces_of(ranges@) =~= grouped.push(self.excerpt_piece()) + plain.take(
                    k + 1,
                ));
                k = k + 1;
            }
            assert(plain.take(k as int) =~= plain);
        }
        assert(pieces_of(ranges@) =~= self.file_pieces(index, f as int));
        ranges
    }

    /// Appends a file as the prompt shows it.
    fn push_file(&self, index: &IdentifierIndex, f: usize, name: &str, output: &mut String)
        requires
            self.fits(index),
            f < index.files@.len(),
        ensures
            encode_utf8(final(output)@) == encode_utf8(old(output)@) + self.written_file(
                index,
                f as int,
                name@,
            ),
    {
        let ghost start = output@;
        let ranges = self.file_ranges(index, f);
        if ranges.len() == 0 {
            assert(encode_utf8(output@) =~= encode_utf8(start) + self.written_file(
                index,
                f as int,
                name@,
            ));
            return;
        }
        output.append("```");
        output.append(name);
        output.append("\n");
        proof {
            lemma_encode_concat(start, "```"@);
            lemma_encode_concat(start + "```"@, name@);
            lemma_encode_concat(start + "```"@ + name@, "\n"@);
        }
        assert(can_write(
            self.file_pieces(index, f as int),
            MERGE_THRESHOLD as int,
            index.source_of(f as int),
        ));
        add_ellipsis_separated_ranges(
            output,
            index.files[f].source.as_str(),
            ranges,
            MERGE_THRESHOLD,
        );
        let ghost body = output@;
        output.append("```\n\n");
        proof {
            lemma_encode_concat(body, "```\n\n"@);
            assert(encode_utf8(output@) =~= encode_utf8(start) + self.written_file(
                index,
                f as int,
                name@,
            ));
        }
    }

    /// Renders the planned context to a string, the files under given names.
    pub fn render(&self, index: &IdentifierIndex, names: &Vec<String>) -> (output: String)
        requires
            self.fits(index),
            names@.len() == index.files@.len(),
        ensures
            encode_utf8(output@) == self.written(index, texts(names@)),
    {
        let mut output = String::new();
        let ghost shown = texts(names@);
        let mut f: usize = 0;
        assert(encode_utf8(output@) =~= self.written_files(index, shown, 0));
        while f < index.files.len()
            invariant
                f <= index.files@.len(),
                self.fits(index),
                names@.len() == index.files@.len(),
                shown == texts(names@),
                encode_utf8(output@) == self.written_files(index, shown, f as nat),
            decreases index.files@.len() - f,
        {
            let ghost before = encode_utf8(output@);
            if f != self.excerpt_file {
                assert(shown[f as int] == names@[f as int]@);
                self.push_file(index, f, names[f].as_str(), &mut output);
            } else {
                assert(before + Seq::<u8>::empty() =~= before);
            }
            f = f + 1;
        }
        assert(shown[self.excerpt_file as int] == names@[self.excerpt_file as int]@);
        self.push_file(index, self.excerpt_file, names[self.excerpt_file].as_str(), &mut output);
        output
    }

    /// Renders the planned context to a string.
    ///
    /// Each file starts with "```FILE_PATH\n` and ends with triple backticks, with a newline after
    /// each file. When outputting nonconsecutive lines, output a line with "...". When outputting
    /// chunks which are less than 4 bytes apart, merge their ranges instead of delimiting with
    /// "...". Paths below the root path are given relative to it.
    pub fn to_prompt_string(&self, index: &IdentifierIndex) -> (output: String)
        requires
            self.fits(index),
        ensures
            exists|names: Seq<Seq<char>>|
                {
                    &&& names.len() == index.files@.len()
                    &&& forall|f: int|
                        0 <= f < names.len() && is_portable(index.files@[f].path@) && is_portable(
                            self.root_path@,
                        ) ==> shows_path(
                            #[trigger] names[f],
                            index.files@[f].path@,
                            self.root_path@,
                        )
                    &&& encode_utf8(output@) == #[trigger] self.written(index, names)
                },
    {
        let mut names: Vec<String> = Vec::new();
        let mut f: usize = 0;
        while f < index.files.len()
            invariant
                f <= index.files@.len(),
                names@.len() == f,
                forall|g: int|
                    0 <= g < f && is_portable(index.files@[g].path@) && is_portable(self.root_path@)
                        ==> shows_path(
                        (#[trigger] names@[g])@,
                        index.files@[g].path@,
                        self.root_path@,
                    ),
            decreases index.files@.len() - f,
        {
            let path = index.files[f].path.as_str();
            let name = match strip_root(path, self.root_path.as_str()) {
                Some(relative) => relative,
                None => path.to_owned(),
            };
            names.push(name);
            f = f + 1;
        }
        assert(texts(names@).len() == index.files@.len());
        self.render(index, &names)
    }
}

impl PlannedPrompt {
    /// The block of a file starts with its name behind three backticks and ends with
    /// three backticks.
    pub proof fn law_block_is_fenced(&self, index: &IdentifierIndex, f: int, name: Seq<char>)
        requires
            self.file_pieces(index, f).len() > 0,
        ensures
            has_prefix(
                self.written_file(index, f, name),
                "```".spec_bytes() + encode_utf8(name) + "\n".spec_bytes(),
            ),
            has_suffix(self.written_file(index, f, name), "```\n\n".spec_bytes()),
    {
        let block = self.written_file(index, f, name);
        let head = "```".spec_bytes() + encode_utf8(name) + "\n".spec_bytes();
        let end = "```\n\n".spec_bytes();
        assert(block.subrange(0, head.len() as int) =~= head);
        assert(block.subrange(block.len() - end.len(), block.len() as int) =~= end);
    }

    /// The file with the cursor is always shown, and comes last.
    pub proof fn law_cursor_file_is_last(&self, index: &IdentifierIndex, names: Seq<Seq<char>>)
        ensures
            self.file_pieces(index, self.excerpt_file as int).len() > 0,
            has_suffix(
                self.written(index, names),
                self.written_file(
                    index,
                    self.excerpt_file as int,
                    names[self.excerpt_file as int],
                ),
            ),
    {
        let all = self.written(index, names);
        let last = self.written_file(
            index,
            self.excerpt_file as int,
            names[self.excerpt_file as int],
        );
        assert(all.subrange(all.len() - last.len(), all.len() as int) =~= last);
    }

    /// The other files come in the order of their paths: what is written of the files
    /// up to one is continued by those whose paths come after it.
    pub proof fn law_files_in_path_order(
        &self,
        index: &IdentifierIndex,
        names: Seq<Seq<char>>,
        f: int,
        g: int,
    )
        requires
            index.fits(),
            0 <= f < g < index.files@.len(),
        ensures
            path_before(index.files@[f].path@, index.files@[g].path@),
            has_prefix(
                self.written_files(index, names, (g + 1) as nat),
                self.written_files(index, names, (f + 1) as nat),
            ),
    {
        self.lemma_written_files_grow(index, names, (f + 1) as nat, (g + 1) as nat);
    }

    proof fn lemma_written_files_grow(
        &self,
        index: &IdentifierIndex,
        names: Seq<Seq<char>>,
        n: nat,
        m: nat,
    )
        requires
            n <= m,
        ensures
            has_prefix(
                self.written_files(index, names, m),
                self.written_files(index, names, n),
            ),
        decreases m,
    {
        let shorter = self.written_files(index, names, n);
        let longer = self.written_files(index, names, m);
        if n < m {
            self.lemma_written_files_grow(index, names, n, (m - 1) as nat);
            let before = self.written_files(index, names, (m - 1) as nat);
            assert(longer.subrange(0, shorter.len() as int) =~= before.subrange(
                0,
                shorter.len() as int,
            ));
        } else {
            assert(longer.subrange(0, shorter.len() as int) =~= shorter);
        }
    }
}

} // verus!
