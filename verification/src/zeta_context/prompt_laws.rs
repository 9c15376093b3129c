//! What holds of a prompt as a whole: everything that was planned is shown.
use crate::stable_sort::{
    law_sort_loses_nothing, law_stable_order, lemma_sorted_items, stable_order, stably_sorted,
};
use crate::text::{
    has_prefix, holds, lemma_holds, lemma_holds_itself, lemma_holds_part, lemma_line_end,
    lemma_line_start, NEWLINE,
};
use crate::zeta_context::identifier_index::{lemma_located, signature_fits, IdentifierIndex};
use crate::zeta_context::outline::OutlineId;
use crate::zeta_context::prompt::{
    arranged, can_write, concatenated, ellipsis, insertions_fit, joined, joins, merged,
    moves_end, parent_lines, parent_pieces, piece_fits, piece_starts, plain_piece,
    with_insertions, written_from, written_piece, Piece, PlannedPrompt, CURSOR_MARKER,
    EDITABLE_REGION_END_MARKER, EDITABLE_REGION_START_MARKER, MERGE_THRESHOLD,
};
use vstd::prelude::*;
use vstd::string::*;
use vstd::utf8::*;

verus! {

/// Whether a part covers the bytes from `start` to `end`.
pub open spec fn covers_bytes(part: Piece, start: int, end: int) -> bool {
    part.start <= start && end <= part.end
}

/// Whether one of several parts covers the bytes from `start` to `end`.
pub open spec fn some_covers(parts: Seq<Piece>, start: int, end: int) -> bool {
    exists|k: int| 0 <= k < parts.len() && #[trigger] covers_bytes(parts[k], start, end)
}

/// Whether parts stand in the order of their starts.
pub open spec fn starts_ascend(pieces: Seq<Piece>) -> bool {
    forall|i: int, j: int|
        0 <= i <= j < pieces.len() ==> (#[trigger] pieces[i]).start <= (#[trigger] pieces[j]).start
}

/// Whether one of several parts starts at an offset.
pub open spec fn some_starts(pieces: Seq<Piece>, at: int) -> bool {
    exists|i: int| 0 <= i < pieces.len() && (#[trigger] pieces[i]).start == at
}

/// Whether one of several parts ends at an offset.
pub open spec fn some_ends(pieces: Seq<Piece>, at: int) -> bool {
    exists|i: int| 0 <= i < pieces.len() && (#[trigger] pieces[i]).end == at
}

proof fn lemma_some(pieces: Seq<Piece>, at: int)
    requires
        pieces.len() > 0,
    ensures
        some_starts(pieces.drop_last(), at) ==> some_starts(pieces, at),
        some_ends(pieces.drop_last(), at) ==> some_ends(pieces, at),
        some_starts(pieces, pieces.last().start),
        some_ends(pieces, pieces.last().end),
{
    let shorter = pieces.drop_last();
    assert(pieces[pieces.len() - 1] == pieces.last());
    if some_starts(shorter, at) {
        let i = choose|i: int| 0 <= i < shorter.len() && (#[trigger] shorter[i]).start == at;
        assert(pieces[i] == shorter[i]);
    }
    if some_ends(shorter, at) {
        let i = choose|i: int| 0 <= i < shorter.len() && (#[trigger] shorter[i]).end == at;
        assert(pieces[i] == shorter[i]);
    }
}

/// A merged part starts where a part starts and ends where a part ends, and two merged
/// parts that follow one another are at least the threshold apart.
pub proof fn law_merged_parts_are_apart(pieces: Seq<Piece>, threshold: int, len: int)
    ensures
        ({
            let parts = merged(pieces, threshold, len);
            &&& parts.len() > 0 <==> pieces.len() > 0
            &&& parts.len() <= pieces.len()
            &&& forall|k: int|
                0 <= k < parts.len() ==> some_starts(pieces, (#[trigger] parts[k]).start)
                    && some_ends(pieces, parts[k].end)
            &&& forall|k: int|
                0 < k < parts.len() ==> parts[k - 1].end + threshold <= (
                #[trigger] parts[k]).start
        }),
    decreases pieces.len(),
{
    let parts = merged(pieces, threshold, len);
    if pieces.len() > 0 {
        let shorter = pieces.drop_last();
        let next = pieces.last();
        law_merged_parts_are_apart(shorter, threshold, len);
        let before = merged(shorter, threshold, len);
        lemma_some(pieces, 0);
        let m = if joins(before, next, threshold) {
            before.len() - 1
        } else {
            before.len() as int
        };
        assert forall|k: int| 0 <= k < parts.len() implies some_starts(
            pieces,
            (#[trigger] parts[k]).start,
        ) && some_ends(pieces, parts[k].end) by {
            if k < before.len() {
                lemma_some(pieces, before[k].start);
                lemma_some(pieces, before[k].end);
                assert(some_starts(shorter, before[k].start));
            }
            if k < m {
                assert(parts[k] == before[k]);
            }
        }
        assert forall|k: int| 0 < k < parts.len() implies parts[k - 1].end + threshold <= (
        #[trigger] parts[k]).start by {
            assert(parts[k - 1] == before[k - 1]);
            if k < before.len() {
                assert(before[k - 1].end + threshold <= before[k].start);
                assert(parts[k].start == before[k].start);
            }
        }
    }
}

/// Merging loses nothing: every part lies within a merged one.
pub proof fn law_merging_loses_nothing(pieces: Seq<Piece>, threshold: int, len: int, i: int)
    requires
        starts_ascend(pieces),
        0 <= i < pieces.len(),
    ensures
        some_covers(merged(pieces, threshold, len), pieces[i].start, pieces[i].end),
    decreases pieces.len(),
{
    let parts = merged(pieces, threshold, len);
    let shorter = pieces.drop_last();
    let next = pieces.last();
    let before = merged(shorter, threshold, len);
    law_merged_parts_are_apart(shorter, threshold, len);
    let n = pieces.len() - 1;
    if joins(before, next, threshold) {
        let m = before.len() - 1;
        assert(some_starts(shorter, before[m].start));
        let s = choose|s: int|
            0 <= s < shorter.len() && (#[trigger] shorter[s]).start == before[m].start;
        assert(pieces[s] == shorter[s]);
        assert(pieces[s].start <= pieces[n].start);
    }
    if i < n {
        assert forall|i: int, j: int| 0 <= i <= j < shorter.len() implies (
        #[trigger] shorter[i]).start <= (#[trigger] shorter[j]).start by {
            assert(pieces[i].start <= pieces[j].start);
        }
        law_merging_loses_nothing(shorter, threshold, len, i);
        let k = choose|k: int|
            0 <= k < before.len() && #[trigger] covers_bytes(
                before[k],
                shorter[i].start,
                shorter[i].end,
            );
        assert(covers_bytes(parts[k], pieces[i].start, pieces[i].end));
    } else {
        assert(covers_bytes(parts[parts.len() - 1], pieces[i].start, pieces[i].end));
    }
}

/// Whether the starts of parts are offsets.
pub open spec fn starts_fit(pieces: Seq<Piece>) -> bool {
    forall|i: int| 0 <= i < pieces.len() ==> 0 <= (#[trigger] pieces[i]).start <= usize::MAX
}

/// Sorting parts puts them in the order of their starts.
proof fn lemma_sorted_parts(pieces: Seq<Piece>)
    requires
        starts_fit(pieces),
    ensures
        starts_ascend(stably_sorted(pieces, piece_starts(pieces))),
        stably_sorted(pieces, piece_starts(pieces)).len() == pieces.len(),
{
    let keys = piece_starts(pieces);
    let order = stable_order(keys, keys.len());
    let sorted = stably_sorted(pieces, keys);
    law_stable_order(keys, keys.len());
    lemma_sorted_items(pieces, keys);
    assert forall|i: int, j: int| 0 <= i <= j < sorted.len() implies (#[trigger] sorted[i]).start
        <= (#[trigger] sorted[j]).start by {
        assert(sorted[i] == pieces[order[i]] && sorted[j] == pieces[order[j]]);
        assert(keys[order[i]] == pieces[order[i]].start && keys[order[j]]
            == pieces[order[j]].start);
        if i < j {
            assert(keys[order[i]] <= keys[order[j]]);
        }
    }
}

/// Arranging parts loses none: each lies within one of those that are written.
pub proof fn law_arranging_loses_nothing(
    pieces: Seq<Piece>,
    threshold: int,
    len: int,
    i: int,
)
    requires
        starts_fit(pieces),
        0 <= i < pieces.len(),
    ensures
        some_covers(arranged(pieces, threshold, len), pieces[i].start, pieces[i].end),
{
    let keys = piece_starts(pieces);
    let sorted = stably_sorted(pieces, keys);
    lemma_sorted_parts(pieces);
    lemma_sorted_items(pieces, keys);
    law_sort_loses_nothing(keys, keys.len(), i);
    let order = stable_order(keys, keys.len());
    let a = choose|a: int| 0 <= a < order.len() && order[a] == i;
    assert(sorted[a] == pieces[i]);
    law_merging_loses_nothing(sorted, threshold, len, a);
}

/// Whether a part has nothing inserted and does not end before it starts.
pub open spec fn is_plain(piece: Piece) -> bool {
    &&& 0 <= piece.start <= piece.end
    &&& piece.insertions.len() == 0
    &&& piece.end_insertions.len() == 0
}

/// Whether a part has nothing inserted.
pub open spec fn is_bare(piece: Piece) -> bool {
    piece.insertions.len() == 0 && piece.end_insertions.len() == 0
}

proof fn lemma_parent_pieces(index: &IdentifierIndex, parents: Seq<OutlineId>, n: nat)
    requires
        index.fits(),
        n <= parents.len(),
    ensures
        forall|k: int|
            0 <= k < parent_pieces(index, parents, n).len() ==> is_plain(
                #[trigger] parent_pieces(index, parents, n)[k],
            ),
        forall|p: int|
            0 <= p < n && index.located(#[trigger] parents[p]) is Some ==> parent_pieces(
                index,
                parents,
                n,
            ).contains(
                plain_piece(
                    parent_lines(index, parents[p]).0,
                    parent_lines(index, parents[p]).1,
                ),
            ),
    decreases n,
{
    if n > 0 {
        lemma_parent_pieces(index, parents, (n - 1) as nat);
        let before = parent_pieces(index, parents, (n - 1) as nat);
        let now = parent_pieces(index, parents, n);
        let last = parents[n - 1];
        if index.located(last) is Some {
            lemma_parent_lines_in_text(index, last);
        }
        assert forall|p: int| 0 <= p < n && index.located(#[trigger] parents[p]) is Some implies
            now.contains(
            plain_piece(parent_lines(index, parents[p]).0, parent_lines(index, parents[p]).1),
        ) by {
            let piece = plain_piece(
                parent_lines(index, parents[p]).0,
                parent_lines(index, parents[p]).1,
            );
            if p < n - 1 {
                assert(before.contains(piece));
                let k = choose|k: int| 0 <= k < before.len() && before[k] == piece;
                assert(now[k] == piece);
            } else {
                assert(now[before.len() as int] == piece);
            }
        }
    }
}

proof fn lemma_parent_lines_in_text(index: &IdentifierIndex, id: OutlineId)
    requires
        index.fits(),
        index.located(id) is Some,
    ensures
        0 <= parent_lines(index, id).0 <= parent_lines(index, id).1,
{
    lemma_located(index, id);
    let (f, k) = index.located(id)->0;
    let item = index.files@[f].items@[k];
    let bytes = index.source_of(f);
    assert(signature_fits(item, bytes));
    encode_utf8_valid_utf8(index.files@[f].source@);
    lemma_line_start(bytes, item.signature_range.start as int);
    lemma_line_end(bytes, item.signature_range.end as int);
}

impl PlannedPrompt {
    /// Whether the prompt shows the bytes from `start` to `end` of a file: one of the
    /// parts that are written of it covers them.
    pub open spec fn shows(&self, index: &IdentifierIndex, f: int, start: int, end: int) -> bool {
        some_covers(
            arranged(
                self.file_pieces(index, f),
                MERGE_THRESHOLD as int,
                index.source_of(f).len() as int,
            ),
            start,
            end,
        )
    }

    proof fn lemma_group(&self, f: int, n: nat)
        requires
            n <= self.snippets@.len(),
        ensures
            forall|j: int| #[trigger]
                self.group(f, n).contains(j) <==> 0 <= j < n && self.scored_of(j).definition_file
                    == f,
        decreases n,
    {
        if n > 0 {
            self.lemma_group(f, (n - 1) as nat);
            let before = self.group(f, (n - 1) as nat);
            let now = self.group(f, n);
            assert forall|j: int| #[trigger] now.contains(j) <==> 0 <= j < n && self.scored_of(
                j,
            ).definition_file == f by {
                if now.contains(j) {
                    let k = choose|k: int| 0 <= k < now.len() && now[k] == j;
                    if k < before.len() {
                        assert(before[k] == j);
                        assert(before.contains(j));
                    }
                }
                if 0 <= j < n && self.scored_of(j).definition_file == f {
                    if j < n - 1 {
                        assert(before.contains(j));
                        let k = choose|k: int| 0 <= k < before.len() && before[k] == j;
                        assert(now[k] == j);
                    } else {
                        assert(now[before.len() as int] == j);
                    }
                }
            }
        }
    }

    proof fn lemma_snippet_lines(&self, index: &IdentifierIndex, j: int)
        requires
            self.fits(index),
            0 <= j < self.snippets@.len(),
        ensures
            0 <= self.scored_of(j).lines(index, self.snippets@[j].style).0 <= self.scored_of(
                j,
            ).lines(index, self.snippets@[j].style).1,
    {
        let scored = self.scored_of(j);
        assert(self.snippets@[j].scored_snippet < self.scored@.len());
        assert(scored.fits(index));
        let bytes = index.source_of(scored.definition_file as int);
        encode_utf8_valid_utf8(index.files@[scored.definition_file as int].source@);
        lemma_line_start(bytes, scored.definition.signature_range.start as int);
        lemma_line_end(bytes, scored.definition.signature_range.end as int);
        lemma_line_start(bytes, scored.definition.item_range.start as int);
        lemma_line_end(bytes, scored.definition.item_range.end as int);
    }

    proof fn lemma_group_pieces(&self, index: &IdentifierIndex, group: Seq<int>)
        requires
            self.fits(index),
            forall|x: int|
                0 <= x < group.len() ==> 0 <= #[trigger] group[x] < self.snippets@.len(),
        ensures
            forall|k: int|
                0 <= k < self.group_pieces(index, group).len() ==> is_plain(
                    #[trigger] self.group_pieces(index, group)[k],
                ),
            forall|x: int|
                0 <= x < group.len() ==> {
                    let j = #[trigger] group[x];
                    let lines = self.scored_of(j).lines(index, self.snippets@[j].style);
                    self.group_pieces(index, group).contains(plain_piece(lines.0, lines.1))
                },
            forall|x: int, p: int|
                0 <= x < group.len() && 0 <= p < self.scored_of(
                    #[trigger] group[x],
                ).definition.parents@.len() && index.located(
                    #[trigger] self.scored_of(group[x]).definition.parents@[p],
                ) is Some ==> {
                    let lines = parent_lines(
                        index,
                        self.scored_of(group[x]).definition.parents@[p],
                    );
                    self.group_pieces(index, group).contains(plain_piece(lines.0, lines.1))
                },
        decreases group.len(),
    {
        if group.len() > 0 {
            let shorter = group.drop_last();
            let n = group.len() - 1;
            assert forall|x: int| 0 <= x < shorter.len() implies 0 <= #[trigger] shorter[x]
                < self.snippets@.len() by {
                assert(shorter[x] == group[x]);
            }
            self.lemma_group_pieces(index, shorter);
            let before = self.group_pieces(index, shorter);
            let now = self.group_pieces(index, group);
            let last = group[n];
            assert(last == group.last());
            let lines = self.scored_of(last).lines(index, self.snippets@[last].style);
            let parents = self.scored_of(last).definition.parents@;
            let added = parent_pieces(index, parents, parents.len());
            self.lemma_snippet_lines(index, last);
            lemma_parent_pieces(index, parents, parents.len());
            assert(now == before.push(plain_piece(lines.0, lines.1)) + added);
            assert forall|k: int| 0 <= k < now.len() implies is_plain(#[trigger] now[k]) by {
                if k < before.len() {
                    assert(now[k] == before[k]);
                } else if k > before.len() {
                    assert(now[k] == added[k - before.len() - 1]);
                }
            }
            assert forall|x: int| 0 <= x < group.len() implies ({
                let j = #[trigger] group[x];
                let lines = self.scored_of(j).lines(index, self.snippets@[j].style);
                now.contains(plain_piece(lines.0, lines.1))
            }) by {
                let j = group[x];
                let own = self.scored_of(j).lines(index, self.snippets@[j].style);
                let piece = plain_piece(own.0, own.1);
                if x < n {
                    assert(shorter[x] == group[x]);
                    assert(before.contains(piece));
                    let k = choose|k: int| 0 <= k < before.len() && before[k] == piece;
                    assert(now[k] == piece);
                } else {
                    assert(now[before.len() as int] == piece);
                }
            }
            assert forall|x: int, p: int|
                0 <= x < group.len() && 0 <= p < self.scored_of(
                    #[trigger] group[x],
                ).definition.parents@.len() && index.located(
                    #[trigger] self.scored_of(group[x]).definition.parents@[p],
                ) is Some implies ({
                let lines = parent_lines(index, self.scored_of(group[x]).definition.parents@[p]);
                now.contains(plain_piece(lines.0, lines.1))
            }) by {
                let own = parent_lines(index, self.scored_of(group[x]).definition.parents@[p]);
                let piece = plain_piece(own.0, own.1);
                if x < n {
                    assert(shorter[x] == group[x]);
                    assert(before.contains(piece));
                    let k = choose|k: int| 0 <= k < before.len() && before[k] == piece;
                    assert(now[k] == piece);
                } else {
                    assert(added.contains(piece));
                    let k = choose|k: int| 0 <= k < added.len() && added[k] == piece;
                    assert(now[before.len() + 1 + k] == piece);
                }
            }
        }
    }

    /// The sorted group of a file.
    spec fn sorted_group(&self, index: &IdentifierIndex, f: int) -> Seq<int> {
        let group = self.group(f, self.snippets@.len());
        stably_sorted(group, self.group_starts(index, group))
    }

    proof fn lemma_sorted_group(&self, index: &IdentifierIndex, f: int)
        ensures
            forall|j: int| #[trigger]
                self.sorted_group(index, f).contains(j) <==> 0 <= j < self.snippets@.len()
                    && self.scored_of(j).definition_file == f,
            forall|x: int|
                0 <= x < self.sorted_group(index, f).len() ==> 0 <= #[trigger] self.sorted_group(
                    index,
                    f,
                )[x] < self.snippets@.len(),
    {
        let group = self.group(f, self.snippets@.len());
        let keys = self.group_starts(index, group);
        let sorted = self.sorted_group(index, f);
        self.lemma_group(f, self.snippets@.len());
        lemma_sorted_items(group, keys);
        law_stable_order(keys, keys.len());
        let order = stable_order(keys, keys.len());
        assert forall|j: int| #[trigger] sorted.contains(j) <==> group.contains(j) by {
            if sorted.contains(j) {
                let x = choose|x: int| 0 <= x < sorted.len() && sorted[x] == j;
                assert(group[order[x]] == j);
            }
            if group.contains(j) {
                let i = choose|i: int| 0 <= i < group.len() && group[i] == j;
                law_sort_loses_nothing(keys, keys.len(), i);
                let a = choose|a: int| 0 <= a < order.len() && order[a] == i;
                assert(sorted[a] == j);
            }
        }
        assert forall|x: int| 0 <= x < sorted.len() implies 0 <= #[trigger] sorted[x]
            < self.snippets@.len() by {
            assert(sorted.contains(sorted[x]));
        }
    }

    /// The parts of a file: those of the snippets are plain, and behind them come, in the
    /// file with the cursor, the excerpt and the signatures around it.
    proof fn lemma_file_pieces(&self, index: &IdentifierIndex, f: int)
        requires
            self.fits(index),
            0 <= f < index.files@.len(),
        ensures
            starts_fit(self.file_pieces(index, f)),
            f != self.excerpt_file ==> forall|k: int|
                0 <= k < self.file_pieces(index, f).len() ==> is_plain(
                    #[trigger] self.file_pieces(index, f)[k],
                ),
            forall|j: int|
                0 <= j < self.snippets@.len() && (#[trigger] self.scored_of(j)).definition_file
                    == f ==> {
                    let lines = self.scored_of(j).lines(index, self.snippets@[j].style);
                    self.file_pieces(index, f).contains(plain_piece(lines.0, lines.1))
                },
            forall|j: int, p: int|
                0 <= j < self.snippets@.len() && (#[trigger] self.scored_of(j)).definition_file
                    == f && 0 <= p < self.scored_of(j).definition.parents@.len() && index.located(
                    #[trigger] self.scored_of(j).definition.parents@[p],
                ) is Some ==> {
                    let lines = parent_lines(index, self.scored_of(j).definition.parents@[p]);
                    self.file_pieces(index, f).contains(plain_piece(lines.0, lines.1))
                },
            f == self.excerpt_file ==> self.file_pieces(index, f).contains(self.excerpt_piece()),
            f == self.excerpt_file ==> forall|k: int|
                0 <= k < self.excerpt_ranges.parent_signature_ranges@.len() ==> {
                    let r = #[trigger] self.excerpt_ranges.parent_signature_ranges@[k];
                    self.file_pieces(index, f).contains(plain_piece(r.start as int, r.end as int))
                },
    {
        let sorted = self.sorted_group(index, f);
        self.lemma_sorted_group(index, f);
        self.lemma_group_pieces(index, sorted);
        let grouped = self.group_pieces(index, sorted);
        let pieces = self.file_pieces(index, f);
        assert(can_write(pieces, MERGE_THRESHOLD as int, index.source_of(f)));
        assert(pieces.subrange(0, grouped.len() as int) =~= grouped);
        assert forall|piece: Piece| #[trigger] grouped.contains(piece) implies pieces.contains(
            piece,
        ) by {
            let k = choose|k: int| 0 <= k < grouped.len() && grouped[k] == piece;
            assert(pieces[k] == piece);
        }
        assert forall|k: int| 0 <= k < pieces.len() implies 0 <= (#[trigger] pieces[k]).start
            <= usize::MAX by {
            if k < grouped.len() {
                assert(pieces[k] == grouped[k]);
                assert(is_plain(grouped[k]));
            }
        }
        if f != self.excerpt_file {
            assert(pieces =~= grouped);
        } else {
            let signatures = self.excerpt_ranges.parent_signature_ranges@;
            assert(pieces[grouped.len() as int] == self.excerpt_piece());
            assert forall|k: int| 0 <= k < signatures.len() implies ({
                let r = #[trigger] signatures[k];
                pieces.contains(plain_piece(r.start as int, r.end as int))
            }) by {
                let r = signatures[k];
                assert(pieces[grouped.len() + 1 + k] == plain_piece(
                    r.start as int,
                    r.end as int,
                ));
            }
        }
        assert forall|j: int|
            0 <= j < self.snippets@.len() && (#[trigger] self.scored_of(j)).definition_file
                == f implies ({
            let lines = self.scored_of(j).lines(index, self.snippets@[j].style);
            pieces.contains(plain_piece(lines.0, lines.1))
        }) by {
            assert(sorted.contains(j));
            let x = choose|x: int| 0 <= x < sorted.len() && sorted[x] == j;
            let lines = self.scored_of(sorted[x]).lines(index, self.snippets@[sorted[x]].style);
            assert(grouped.contains(plain_piece(lines.0, lines.1)));
        }
        assert forall|j: int, p: int|
            0 <= j < self.snippets@.len() && (#[trigger] self.scored_of(j)).definition_file == f
                && 0 <= p < self.scored_of(j).definition.parents@.len() && index.located(
                #[trigger] self.scored_of(j).definition.parents@[p],
            ) is Some implies ({
            let lines = parent_lines(index, self.scored_of(j).definition.parents@[p]);
            pieces.contains(plain_piece(lines.0, lines.1))
        }) by {
            assert(sorted.contains(j));
            let x = choose|x: int| 0 <= x < sorted.len() && sorted[x] == j;
            let lines = parent_lines(index, self.scored_of(sorted[x]).definition.parents@[p]);
            assert(grouped.contains(plain_piece(lines.0, lines.1)));
        }
    }

    proof fn lemma_piece_is_shown(&self, index: &IdentifierIndex, f: int, piece: Piece)
        requires
            self.fits(index),
            0 <= f < index.files@.len(),
            self.file_pieces(index, f).contains(piece),
        ensures
            self.shows(index, f, piece.start, piece.end),
    {
        let pieces = self.file_pieces(index, f);
        self.lemma_file_pieces(index, f);
        let i = choose|i: int| 0 <= i < pieces.len() && pieces[i] == piece;
        law_arranging_loses_nothing(
            pieces,
            MERGE_THRESHOLD as int,
            index.source_of(f).len() as int,
            i,
        );
    }

    /// Everything that a plan pays for is shown: the excerpt and the signatures around
    /// it, the lines of each snippet, and the signatures of its parents.
    pub proof fn law_everything_planned_is_shown(&self, index: &IdentifierIndex)
        requires
            self.fits(index),
        ensures
            self.shows(
                index,
                self.excerpt_file as int,
                self.excerpt_ranges.excerpt_range.start as int,
                self.excerpt_ranges.excerpt_range.end as int,
            ),
            forall|k: int|
                0 <= k < self.excerpt_ranges.parent_signature_ranges@.len() ==> self.shows(
                    index,
                    self.excerpt_file as int,
                    (#[trigger] self.excerpt_ranges.parent_signature_ranges@[k]).start as int,
                    self.excerpt_ranges.parent_signature_ranges@[k].end as int,
                ),
            forall|j: int|
                0 <= j < self.snippets@.len() ==> self.shows(
                    index,
                    (#[trigger] self.scored_of(j)).definition_file as int,
                    self.scored_of(j).lines(index, self.snippets@[j].style).0,
                    self.scored_of(j).lines(index, self.snippets@[j].style).1,
                ),
            forall|j: int, p: int|
                0 <= j < self.snippets@.len() && 0 <= p < (#[trigger] self.scored_of(
                    j,
                )).definition.parents@.len() && index.located(
                    #[trigger] self.scored_of(j).definition.parents@[p],
                ) is Some ==> self.shows(
                    index,
                    self.scored_of(j).definition_file as int,
                    parent_lines(index, self.scored_of(j).definition.parents@[p]).0,
                    parent_lines(index, self.scored_of(j).definition.parents@[p]).1,
                ),
    {
        let f = self.excerpt_file as int;
        self.lemma_file_pieces(index, f);
        self.lemma_piece_is_shown(index, f, self.excerpt_piece());
        assert forall|k: int| 0 <= k < self.excerpt_ranges.parent_signature_ranges@.len() implies
            self.shows(
            index,
            f,
            (#[trigger] self.excerpt_ranges.parent_signature_ranges@[k]).start as int,
            self.excerpt_ranges.parent_signature_ranges@[k].end as int,
        ) by {
            let r = self.excerpt_ranges.parent_signature_ranges@[k];
            self.lemma_piece_is_shown(index, f, plain_piece(r.start as int, r.end as int));
        }
        assert forall|j: int| 0 <= j < self.snippets@.len() implies self.shows(
            index,
            (#[trigger] self.scored_of(j)).definition_file as int,
            self.scored_of(j).lines(index, self.snippets@[j].style).0,
            self.scored_of(j).lines(index, self.snippets@[j].style).1,
        ) by {
            assert(self.snippets@[j].scored_snippet < self.scored@.len());
            let g = self.scored_of(j).definition_file as int;
            self.lemma_file_pieces(index, g);
            let lines = self.scored_of(j).lines(index, self.snippets@[j].style);
            self.lemma_piece_is_shown(index, g, plain_piece(lines.0, lines.1));
        }
        assert forall|j: int, p: int|
            0 <= j < self.snippets@.len() && 0 <= p < (#[trigger] self.scored_of(
                j,
            )).definition.parents@.len() && index.located(
                #[trigger] self.scored_of(j).definition.parents@[p],
            ) is Some implies self.shows(
            index,
            self.scored_of(j).definition_file as int,
            parent_lines(index, self.scored_of(j).definition.parents@[p]).0,
            parent_lines(index, self.scored_of(j).definition.parents@[p]).1,
        ) by {
            assert(self.snippets@[j].scored_snippet < self.scored@.len());
            let g = self.scored_of(j).definition_file as int;
            self.lemma_file_pieces(index, g);
            let lines = parent_lines(index, self.scored_of(j).definition.parents@[p]);
            self.lemma_piece_is_shown(index, g, plain_piece(lines.0, lines.1));
        }
    }
}

/// A text with insertions holds every stretch of the text that no insertion
/// interrupts.
pub proof fn law_insertions_keep_the_text(
    bytes: Seq<u8>,
    insertions: Seq<(int, Seq<u8>)>,
    from: int,
    end: int,
    a: int,
    b: int,
)
    requires
        insertions_fit(insertions, from, end, bytes),
        0 <= from <= a <= b <= end <= bytes.len(),
        forall|x: int|
            0 <= x < insertions.len() ==> (#[trigger] insertions[x]).0 <= a || b <= insertions[x].0,
    ensures
        holds(with_insertions(bytes, insertions, from, end), bytes.subrange(a, b)),
    decreases insertions.len(),
{
    let text = with_insertions(bytes, insertions, from, end);
    if insertions.len() == 0 {
        let all = bytes.subrange(from, end);
        lemma_holds_part(all, a - from, b - from);
        assert(all.subrange(a - from, b - from) =~= bytes.subrange(a, b));
    } else {
        let (o, inserted) = insertions[0];
        let rest = insertions.drop_first();
        let head = bytes.subrange(from, o);
        let tail = with_insertions(bytes, rest, o, end);
        if o <= a {
            assert forall|x: int| 0 <= x < rest.len() implies (#[trigger] rest[x]).0 <= a || b
                <= rest[x].0 by {
                assert(rest[x] == insertions[x + 1]);
            }
            law_insertions_keep_the_text(bytes, rest, o, end, a, b);
            lemma_holds(head + inserted, tail, Seq::empty(), bytes.subrange(a, b));
            assert(text =~= (head + inserted) + tail + Seq::<u8>::empty());
        } else {
            lemma_holds_part(head, a - from, b - from);
            assert(head.subrange(a - from, b - from) =~= bytes.subrange(a, b));
            lemma_holds(Seq::empty(), head, inserted + tail, bytes.subrange(a, b));
            assert(text =~= Seq::<u8>::empty() + head + (inserted + tail));
        }
    }
}

/// Parts are written one after another.
proof fn lemma_written_from(pieces: Seq<Piece>, bytes: Seq<u8>, from: int, k: int) -> (r: (
    Seq<u8>,
    Seq<u8>,
))
    requires
        0 <= from <= k < pieces.len(),
    ensures
        written_from(pieces, bytes, from) == r.0 + written_piece(
            pieces[k],
            bytes,
            k == pieces.len() - 1,
        ) + r.1,
    decreases k - from,
{
    let own = written_piece(pieces[from], bytes, from == pieces.len() - 1);
    let rest = written_from(pieces, bytes, from + 1);
    if from == k {
        assert(own + rest =~= Seq::<u8>::empty() + own + rest);
        (Seq::empty(), rest)
    } else {
        let (before, after) = lemma_written_from(pieces, bytes, from + 1, k);
        let text = written_piece(pieces[k], bytes, k == pieces.len() - 1);
        assert(own + (before + text + after) =~= (own + before) + text + after);
        (own + before, after)
    }
}

/// A part as it is written: what stands before and after its text.
proof fn lemma_written_piece(piece: Piece, bytes: Seq<u8>, last: bool) -> (r: (Seq<u8>, Seq<u8>))
    ensures
        written_piece(piece, bytes, last) == r.0 + with_insertions(
            bytes,
            piece.insertions,
            piece.start,
            piece.end,
        ) + r.1,
        piece.end_insertions.len() == 1 ==> holds(r.1, piece.end_insertions[0]),
{
    let text = with_insertions(bytes, piece.insertions, piece.start, piece.end);
    let before: Seq<u8> = if piece.start > 0 {
        ellipsis()
    } else {
        Seq::empty()
    };
    let newline: Seq<u8> = if piece.end > piece.start && bytes[piece.end - 1] == NEWLINE {
        Seq::empty()
    } else {
        "\n".spec_bytes()
    };
    let inserted = concatenated(piece.end_insertions);
    let dots: Seq<u8> = if last && piece.end < bytes.len() {
        ellipsis()
    } else {
        Seq::empty()
    };
    let after = newline + inserted + dots;
    assert(written_piece(piece, bytes, last) =~= before + text + after);
    if piece.end_insertions.len() == 1 {
        reveal_with_fuel(concatenated, 2);
        let only = piece.end_insertions[0];
        assert(inserted =~= only);
        lemma_holds_itself(only);
        lemma_holds(newline, only, dots, only);
        assert(after =~= newline + only + dots);
    }
    (before, after)
}

/// Texts one after another are the same in any grouping.
proof fn lemma_regrouped(
    a1: Seq<u8>,
    head: Seq<u8>,
    a2: Seq<u8>,
    a3: Seq<u8>,
    text: Seq<u8>,
    b3: Seq<u8>,
    b2: Seq<u8>,
    fence: Seq<u8>,
    b1: Seq<u8>,
)
    ensures
        a1 + (head + (a2 + (a3 + text + b3) + b2) + fence) + b1 == (a1 + head + a2 + a3) + text + (b3
            + (b2 + fence + b1)),
{
    assert(a1 + (head + (a2 + (a3 + text + b3) + b2) + fence) + b1 =~= (a1 + head + a2 + a3) + text
        + (b3 + (b2 + fence + b1)));
}

impl PlannedPrompt {
    /// The parts of a file as they are arranged.
    pub open spec fn parts_of(&self, index: &IdentifierIndex, f: int) -> Seq<Piece> {
        arranged(
            self.file_pieces(index, f),
            MERGE_THRESHOLD as int,
            index.source_of(f).len() as int,
        )
    }

    /// Where the block of a file stands in the prompt.
    proof fn lemma_file_is_written(
        &self,
        index: &IdentifierIndex,
        names: Seq<Seq<char>>,
        f: int,
    ) -> (r: (Seq<u8>, Seq<u8>))
        requires
            0 <= f < index.files@.len(),
            self.excerpt_file < index.files@.len(),
        ensures
            self.written(index, names) == r.0 + self.written_file(index, f, names[f]) + r.1,
    {
        let last = self.written_file(
            index,
            self.excerpt_file as int,
            names[self.excerpt_file as int],
        );
        let files = self.written_files(index, names, index.files@.len());
        if f == self.excerpt_file {
            assert(files + last =~= files + last + Seq::<u8>::empty());
            (files, Seq::empty())
        } else {
            let (before, after) = self.lemma_among_files(index, names, f, index.files@.len());
            let own = self.written_file(index, f, names[f]);
            assert((before + own + after) + last =~= before + own + (after + last));
            (before, after + last)
        }
    }

    proof fn lemma_among_files(
        &self,
        index: &IdentifierIndex,
        names: Seq<Seq<char>>,
        f: int,
        n: nat,
    ) -> (r: (Seq<u8>, Seq<u8>))
        requires
            0 <= f < n,
            f != self.excerpt_file,
        ensures
            self.written_files(index, names, n) == r.0 + self.written_file(index, f, names[f])
                + r.1,
        decreases n,
    {
        let earlier = self.written_files(index, names, (n - 1) as nat);
        let own = self.written_file(index, f, names[f]);
        if f == n - 1 {
            assert(earlier + own =~= earlier + own + Seq::<u8>::empty());
            (earlier, Seq::empty())
        } else {
            let (before, after) = self.lemma_among_files(index, names, f, (n - 1) as nat);
            let last: Seq<u8> = if n - 1 == self.excerpt_file {
                Seq::empty()
            } else {
                self.written_file(index, n - 1, names[n - 1])
            };
            assert((before + own + after) + last =~= before + own + (after + last));
            (before, after + last)
        }
    }

    /// Where a part of a file stands in the prompt: what comes before and after its text.
    proof fn lemma_part_is_written(
        &self,
        index: &IdentifierIndex,
        names: Seq<Seq<char>>,
        f: int,
        k: int,
    ) -> (r: (Seq<u8>, Seq<u8>))
        requires
            self.excerpt_file < index.files@.len(),
            0 <= f < index.files@.len(),
            0 <= k < self.parts_of(index, f).len(),
            self.file_pieces(index, f).len() > 0,
        ensures
            ({
                let part = self.parts_of(index, f)[k];
                &&& self.written(index, names) == r.0 + with_insertions(
                    index.source_of(f),
                    part.insertions,
                    part.start,
                    part.end,
                ) + r.1
                &&& part.end_insertions.len() == 1 ==> holds(r.1, part.end_insertions[0])
            }),
    {
        let bytes = index.source_of(f);
        let parts = self.parts_of(index, f);
        let part = parts[k];
        let (a1, b1) = self.lemma_file_is_written(index, names, f);
        let (a2, b2) = lemma_written_from(parts, bytes, 0, k);
        let (a3, b3) = lemma_written_piece(part, bytes, k == parts.len() - 1);
        let head = "```".spec_bytes() + encode_utf8(names[f]) + "\n".spec_bytes();
        let fence = "```\n\n".spec_bytes();
        let text = with_insertions(bytes, part.insertions, part.start, part.end);
        assert(self.written_file(index, f, names[f]) == head + written_from(parts, bytes, 0)
            + fence);
        let before = a1 + head + a2 + a3;
        let after = b3 + (b2 + fence + b1);
        lemma_regrouped(a1, head, a2, a3, text, b3, b2, fence, b1);
        assert(self.written(index, names) == before + text + after);
        if part.end_insertions.len() == 1 {
            lemma_holds(Seq::empty(), b3, b2 + fence + b1, part.end_insertions[0]);
            assert(after =~= Seq::<u8>::empty() + b3 + (b2 + fence + b1));
        }
        (before, after)
    }

    /// What a part covers is written, where no insertion interrupts it.
    proof fn lemma_covered_text_is_written(
        &self,
        index: &IdentifierIndex,
        names: Seq<Seq<char>>,
        f: int,
        k: int,
        a: int,
        b: int,
    )
        requires
            self.fits(index),
            0 <= f < index.files@.len(),
            0 <= k < self.parts_of(index, f).len(),
            self.file_pieces(index, f).len() > 0,
            self.parts_of(index, f)[k].start <= a <= b <= self.parts_of(index, f)[k].end,
            forall|x: int|
                0 <= x < self.parts_of(index, f)[k].insertions.len() ==> (
                #[trigger] self.parts_of(index, f)[k].insertions[x]).0 <= a || b <= self.parts_of(
                    index,
                    f,
                )[k].insertions[x].0,
        ensures
            holds(self.written(index, names), index.source_of(f).subrange(a, b)),
    {
        let bytes = index.source_of(f);
        let part = self.parts_of(index, f)[k];
        assert(can_write(self.file_pieces(index, f), MERGE_THRESHOLD as int, bytes));
        assert(piece_fits(part, bytes));
        encode_utf8_valid_utf8(index.files@[f].source@);
        law_insertions_keep_the_text(bytes, part.insertions, part.start, part.end, a, b);
        let (before, after) = self.lemma_part_is_written(index, names, f, k);
        let text = with_insertions(bytes, part.insertions, part.start, part.end);
        lemma_holds(before, text, after, bytes.subrange(a, b));
    }

    /// The lines of every snippet of a file without the cursor, and the signatures of
    /// its parents, are written as they stand in the file.
    pub proof fn law_snippets_are_written(
        &self,
        index: &IdentifierIndex,
        names: Seq<Seq<char>>,
        j: int,
    )
        requires
            self.fits(index),
            0 <= j < self.snippets@.len(),
            self.scored_of(j).definition_file != self.excerpt_file,
        ensures
            holds(
                self.written(index, names),
                index.source_of(self.scored_of(j).definition_file as int).subrange(
                    self.scored_of(j).lines(index, self.snippets@[j].style).0,
                    self.scored_of(j).lines(index, self.snippets@[j].style).1,
                ),
            ),
            forall|p: int|
                0 <= p < self.scored_of(j).definition.parents@.len() && index.located(
                    #[trigger] self.scored_of(j).definition.parents@[p],
                ) is Some ==> holds(
                    self.written(index, names),
                    index.source_of(self.scored_of(j).definition_file as int).subrange(
                        parent_lines(index, self.scored_of(j).definition.parents@[p]).0,
                        parent_lines(index, self.scored_of(j).definition.parents@[p]).1,
                    ),
                ),
    {
        assert(self.snippets@[j].scored_snippet < self.scored@.len());
        let f = self.scored_of(j).definition_file as int;
        self.lemma_file_pieces(index, f);
        self.law_everything_planned_is_shown(index);
        self.lemma_snippet_lines(index, j);
        let lines = self.scored_of(j).lines(index, self.snippets@[j].style);
        let pieces = self.file_pieces(index, f);
        assert(pieces.contains(plain_piece(lines.0, lines.1)));
        self.lemma_plain_stretch(index, names, f, lines.0, lines.1);
        assert forall|p: int|
            0 <= p < self.scored_of(j).definition.parents@.len() && index.located(
                #[trigger] self.scored_of(j).definition.parents@[p],
            ) is Some implies holds(
            self.written(index, names),
            index.source_of(f).subrange(
                parent_lines(index, self.scored_of(j).definition.parents@[p]).0,
                parent_lines(index, self.scored_of(j).definition.parents@[p]).1,
            ),
        ) by {
            let id = self.scored_of(j).definition.parents@[p];
            lemma_parent_lines_in_text(index, id);
            assert(self.scored_of(j).definition_file == f);
            self.lemma_plain_stretch(
                index,
                names,
                f,
                parent_lines(index, id).0,
                parent_lines(index, id).1,
            );
        }
    }

    proof fn lemma_plain_stretch(
        &self,
        index: &IdentifierIndex,
        names: Seq<Seq<char>>,
        f: int,
        a: int,
        b: int,
    )
        requires
            self.fits(index),
            0 <= f < index.files@.len(),
            f != self.excerpt_file,
            self.file_pieces(index, f).len() > 0,
            a <= b,
            self.shows(index, f, a, b),
        ensures
            holds(self.written(index, names), index.source_of(f).subrange(a, b)),
    {
        let parts = self.parts_of(index, f);
        let k = choose|k: int| 0 <= k < parts.len() && #[trigger] covers_bytes(parts[k], a, b);
        self.lemma_file_pieces(index, f);
        let pieces = self.file_pieces(index, f);
        let keys = piece_starts(pieces);
        let sorted = stably_sorted(pieces, keys);
        lemma_sorted_items(pieces, keys);
        assert forall|i: int| 0 <= i < sorted.len() implies is_bare(#[trigger] sorted[i]) by {
            let o = stable_order(keys, keys.len())[i];
            assert(sorted[i] == pieces[o]);
            assert(is_plain(pieces[o]));
        }
        lemma_merged_plain(sorted, MERGE_THRESHOLD as int, index.source_of(f).len() as int);
        assert(parts[k].insertions.len() == 0);
        self.lemma_covered_text_is_written(index, names, f, k, a, b);
    }
}

proof fn lemma_merged_plain(pieces: Seq<Piece>, threshold: int, len: int)
    requires
        forall|i: int| 0 <= i < pieces.len() ==> is_bare(#[trigger] pieces[i]),
    ensures
        forall|k: int|
            0 <= k < merged(pieces, threshold, len).len() ==> {
                &&& (#[trigger] merged(pieces, threshold, len)[k]).insertions.len() == 0
                &&& merged(pieces, threshold, len)[k].end_insertions.len() == 0
            },
    decreases pieces.len(),
{
    if pieces.len() > 0 {
        let shorter = pieces.drop_last();
        assert forall|i: int| 0 <= i < shorter.len() implies is_bare(#[trigger] shorter[i]) by {
            assert(shorter[i] == pieces[i]);
        }
        lemma_merged_plain(shorter, threshold, len);
        let before = merged(shorter, threshold, len);
        let parts = merged(pieces, threshold, len);
        assert(is_bare(pieces[pieces.len() - 1]));
        assert forall|k: int| 0 <= k < parts.len() implies (#[trigger] parts[k]).insertions.len()
            == 0 && parts[k].end_insertions.len() == 0 by {
            if k < before.len() {
                assert(before[k].insertions.len() == 0 && before[k].end_insertions.len() == 0);
            }
        }
    }
}

/// Whether a part holds an excerpt with its markers: those of the start and of the
/// cursor at their places, and that of the end behind the excerpt.
spec fn is_marked(part: Piece, excerpt: Piece) -> bool {
    &&& part.start <= excerpt.start
    &&& excerpt.end <= part.end
    &&& {
        ||| part.insertions == excerpt.insertions && part.end_insertions == excerpt.end_insertions
        ||| {
            &&& part.insertions.len() == excerpt.insertions.len() + 1
            &&& part.insertions.drop_last() == excerpt.insertions
            &&& part.insertions.last().0 > excerpt.end
            &&& part.insertions.last().1 == excerpt.end_insertions[0]
            &&& part.end_insertions.len() == 0
        }
    }
}

/// Whether all parts but one are plain, and that one holds the excerpt.
spec fn one_is_marked(parts: Seq<Piece>, excerpt: Piece, m: int) -> bool {
    &&& 0 <= m < parts.len()
    &&& is_marked(parts[m], excerpt)
    &&& forall|k: int|
        0 <= k < parts.len() && k != m ==> (#[trigger] parts[k]).insertions.len() == 0
            && parts[k].end_insertions.len() == 0
}

proof fn lemma_merged_marked(pieces: Seq<Piece>, threshold: int, len: int, e: int) -> (m: int)
    requires
        starts_ascend(pieces),
        0 <= e < pieces.len(),
        pieces[e].end_insertions.len() == 1,
        forall|i: int| 0 <= i < pieces.len() && i != e ==> is_bare(#[trigger] pieces[i]),
    ensures
        one_is_marked(merged(pieces, threshold, len), pieces[e], m),
    decreases pieces.len(),
{
    let shorter = pieces.drop_last();
    let next = pieces.last();
    let before = merged(shorter, threshold, len);
    let parts = merged(pieces, threshold, len);
    let n = pieces.len() - 1;
    let excerpt = pieces[e];
    assert(pieces[n] == next);
    assert forall|i: int, j: int| 0 <= i <= j < shorter.len() implies (#[trigger] shorter[i]).start
        <= (#[trigger] shorter[j]).start by {
        assert(pieces[i].start <= pieces[j].start);
    }
    law_merged_parts_are_apart(shorter, threshold, len);
    if e == n {
        assert forall|i: int| 0 <= i < shorter.len() implies is_bare(#[trigger] shorter[i]) by {
            assert(shorter[i] == pieces[i]);
        }
        lemma_merged_plain(shorter, threshold, len);
        let m = parts.len() - 1;
        if joins(before, next, threshold) {
            let last = before[before.len() - 1];
            assert(last == before.last());
            assert(some_starts(shorter, last.start));
            let s = choose|s: int|
                0 <= s < shorter.len() && (#[trigger] shorter[s]).start == last.start;
            assert(pieces[s] == shorter[s]);
            assert(pieces[s].start <= pieces[n].start);
            assert(parts[m] == joined(last, next, len));
            assert(last.insertions =~= Seq::empty() && last.end_insertions =~= Seq::empty());
            assert(parts[m].insertions =~= next.insertions);
            assert(parts[m].end_insertions =~= next.end_insertions);
        }
        assert forall|k: int| 0 <= k < parts.len() && k != m implies (
        #[trigger] parts[k]).insertions.len() == 0 && parts[k].end_insertions.len() == 0 by {
            assert(parts[k] == before[k]);
        }
        m
    } else {
        assert(shorter[e] == excerpt);
        assert forall|i: int| 0 <= i < shorter.len() && i != e implies is_bare(
            #[trigger] shorter[i],
        ) by {
            assert(shorter[i] == pieces[i]);
        }
        let m = lemma_merged_marked(shorter, threshold, len, e);
        assert(is_bare(next));
        if joins(before, next, threshold) {
            let b = before.len() - 1;
            let last = before[b];
            assert(last == before.last());
            assert(parts[b] == joined(last, next, len));
            assert(next.insertions =~= Seq::empty() && next.end_insertions =~= Seq::empty());
            if m == b {
                if moves_end(last, next.end, len) {
                    let moved = last.end_insertions.map_values(
                        |text: Seq<u8>| (last.end + 1, text),
                    );
                    assert(parts[b].insertions =~= last.insertions + moved);
                    if last.end_insertions.len() == 0 {
                        assert(moved =~= Seq::empty());
                        assert(parts[b].insertions =~= last.insertions);
                        assert(parts[b].end_insertions =~= last.end_insertions);
                    } else {
                        assert(moved.len() == 1);
                        assert(parts[b].insertions.drop_last() =~= excerpt.insertions);
                        assert(parts[b].insertions.last() == moved[0]);
                    }
                } else {
                    assert(parts[b].insertions =~= last.insertions);
                    assert(parts[b].end_insertions =~= last.end_insertions);
                }
            } else {
                assert(last.insertions =~= Seq::empty() && last.end_insertions =~= Seq::empty());
                assert(parts[b].insertions =~= Seq::empty());
                assert(parts[b].end_insertions =~= Seq::empty());
                assert(parts[m] == before[m]);
            }
            assert forall|k: int| 0 <= k < parts.len() && k != m implies (
            #[trigger] parts[k]).insertions.len() == 0 && parts[k].end_insertions.len() == 0 by {
                if k < b {
                    assert(parts[k] == before[k]);
                }
            }
        } else {
            assert(parts[m] == before[m]);
            assert forall|k: int| 0 <= k < parts.len() && k != m implies (
            #[trigger] parts[k]).insertions.len() == 0 && parts[k].end_insertions.len() == 0 by {
                if k < before.len() {
                    assert(parts[k] == before[k]);
                }
            }
        }
        m
    }
}

/// The text of a part that holds an excerpt: what stands before the excerpt and behind
/// it. The marker of the end stands behind it in the part or after the part.
#[verifier::rlimit(60)]
#[verifier::spinoff_prover]
proof fn lemma_marked_text(
    bytes: Seq<u8>,
    part: Piece,
    excerpt: Piece,
    start: int,
    cursor: int,
    end: int,
    first: Seq<u8>,
    second: Seq<u8>,
    third: Seq<u8>,
    after: Seq<u8>,
) -> (r: (Seq<u8>, Seq<u8>))
    requires
        is_marked(part, excerpt),
        piece_fits(part, bytes),
        valid_utf8(bytes),
        excerpt.start == start,
        excerpt.end == end,
        excerpt.insertions == seq![(start, first), (cursor, second)],
        excerpt.end_insertions == seq![third],
        cursor <= end,
        part.end_insertions.len() == 1 ==> holds(after, part.end_insertions[0]),
    ensures
        with_insertions(bytes, part.insertions, part.start, part.end) == r.0 + (first
            + bytes.subrange(start, cursor) + second + bytes.subrange(cursor, end)) + r.1,
        holds(r.1 + after, third),
{
    let rest = part.insertions.drop_first();
    let tail = rest.drop_first();
    let alone = part.insertions == excerpt.insertions;
    assert(part.insertions[0] == (start, first)) by {
        if !alone {
            assert(part.insertions.drop_last()[0] == excerpt.insertions[0]);
        }
    }
    assert(rest[0] == (cursor, second)) by {
        if !alone {
            assert(part.insertions.drop_last()[1] == excerpt.insertions[1]);
        }
    }
    assert(insertions_fit(rest, start, part.end, bytes));
    assert(insertions_fit(tail, cursor, part.end, bytes));
    let inner = with_insertions(bytes, tail, cursor, part.end);
    let shown = bytes.subrange(cursor, end);
    let head = bytes.subrange(part.start, start);
    let middle = bytes.subrange(start, cursor);
    let behind = if tail.len() == 0 {
        let behind = bytes.subrange(end, part.end);
        assert(inner =~= shown + behind);
        assert(part.end_insertions[0] == third);
        lemma_holds(behind, after, Seq::empty(), third);
        assert(behind + after =~= behind + after + Seq::<u8>::empty());
        behind
    } else {
        assert(tail.len() == 1);
        assert(tail[0] == part.insertions.last());
        let x = tail[0].0;
        assert(x <= part.end);
        let none = tail.drop_first();
        assert(with_insertions(bytes, none, x, part.end) == bytes.subrange(x, part.end));
        let between = bytes.subrange(end, x);
        let last = bytes.subrange(x, part.end);
        let behind = between + third + last;
        assert(bytes.subrange(cursor, x) =~= shown + between);
        assert(inner == bytes.subrange(cursor, x) + third + last);
        assert(inner =~= shown + behind);
        lemma_holds_itself(third);
        lemma_holds(between, third, last + after, third);
        assert(behind + after =~= between + third + (last + after));
        behind
    };
    let text = with_insertions(bytes, part.insertions, part.start, part.end);
    assert(text == head + first + with_insertions(bytes, rest, start, part.end));
    assert(with_insertions(bytes, rest, start, part.end) == middle + second + inner);
    assert(head + first + (middle + second + (shown + behind)) =~= head + (first + middle + second
        + shown) + behind);
    (head, behind)
}

/// Whether a text holds an excerpt between two others: behind the marker of the editable
/// region, with that of the cursor in it, and that of the region's end somewhere behind
/// it.
pub open spec fn is_excerpt_between(
    text: Seq<u8>,
    before: Seq<u8>,
    up_to_cursor: Seq<u8>,
    from_cursor: Seq<u8>,
    after: Seq<u8>,
) -> bool {
    &&& text == before + EDITABLE_REGION_START_MARKER.spec_bytes() + up_to_cursor
        + CURSOR_MARKER.spec_bytes() + from_cursor + after
    &&& holds(after, EDITABLE_REGION_END_MARKER.spec_bytes())
}

proof fn lemma_regrouped_excerpt(
    before: Seq<u8>,
    head: Seq<u8>,
    first: Seq<u8>,
    middle: Seq<u8>,
    second: Seq<u8>,
    shown: Seq<u8>,
    behind: Seq<u8>,
    after: Seq<u8>,
)
    ensures
        before + (head + (first + middle + second + shown) + behind) + after == (before + head)
            + first + middle + second + shown + (behind + after),
{
    assert(before + (head + (first + middle + second + shown) + behind) + after =~= (before + head)
        + first + middle + second + shown + (behind + after));
}

impl PlannedPrompt {
    /// The part with the excerpt, of all those of its file.
    proof fn lemma_excerpt_part(&self, index: &IdentifierIndex) -> (m: int)
        requires
            self.fits(index),
        ensures
            one_is_marked(
                self.parts_of(index, self.excerpt_file as int),
                self.excerpt_piece(),
                m,
            ),
            self.file_pieces(index, self.excerpt_file as int).len() > 0,
    {
        let f = self.excerpt_file as int;
        let excerpt = self.excerpt_piece();
        let sorted_group = self.sorted_group(index, f);
        self.lemma_sorted_group(index, f);
        self.lemma_group_pieces(index, sorted_group);
        self.lemma_file_pieces(index, f);
        let grouped = self.group_pieces(index, sorted_group);
        let pieces = self.file_pieces(index, f);
        let g = grouped.len() as int;
        assert(pieces[g] == excerpt);
        assert(can_write(pieces, MERGE_THRESHOLD as int, index.source_of(f)));
        let keys = piece_starts(pieces);
        let order = stable_order(keys, keys.len());
        let sorted = stably_sorted(pieces, keys);
        law_stable_order(keys, keys.len());
        lemma_sorted_items(pieces, keys);
        lemma_sorted_parts(pieces);
        law_sort_loses_nothing(keys, keys.len(), g);
        let e = choose|e: int| 0 <= e < order.len() && order[e] == g;
        assert(sorted[e] == excerpt);
        assert forall|i: int| 0 <= i < sorted.len() && i != e implies is_bare(
            #[trigger] sorted[i],
        ) by {
            let o = order[i];
            assert(sorted[i] == pieces[o]);
            if i < e {
                assert(order[i] != order[e]);
            } else {
                assert(order[e] != order[i]);
            }
            if o < g {
                assert(pieces[o] == grouped[o]);
                assert(is_plain(grouped[o]));
            } else {
                let r = self.excerpt_ranges.parent_signature_ranges@[o - g - 1];
                assert(pieces[o] == plain_piece(r.start as int, r.end as int));
            }
        }
        lemma_merged_marked(
            sorted,
            MERGE_THRESHOLD as int,
            index.source_of(f).len() as int,
            e,
        )
    }

    /// The excerpt is written with the marker of the editable region before it, that of
    /// the cursor where the cursor is, and that of the region's end behind it.
    #[verifier::rlimit(60)]
    #[verifier::spinoff_prover]
    pub proof fn law_excerpt_is_written(&self, index: &IdentifierIndex, names: Seq<Seq<char>>)
        requires
            self.fits(index),
        ensures
            ({
                let bytes = index.source_of(self.excerpt_file as int);
                let start = self.excerpt_ranges.excerpt_range.start as int;
                let end = self.excerpt_ranges.excerpt_range.end as int;
                let cursor = self.cursor_offset as int;
                cursor <= end ==> exists|before: Seq<u8>, after: Seq<u8>| #[trigger]
                    is_excerpt_between(
                        self.written(index, names),
                        before,
                        bytes.subrange(start, cursor),
                        bytes.subrange(cursor, end),
                        after,
                    )
            }),
    {
        let f = self.excerpt_file as int;
        let bytes = index.source_of(f);
        let start = self.excerpt_ranges.excerpt_range.start as int;
        let end = self.excerpt_ranges.excerpt_range.end as int;
        let cursor = self.cursor_offset as int;
        let excerpt = self.excerpt_piece();
        let m = self.lemma_excerpt_part(index);
        let part = self.parts_of(index, f)[m];
        assert(can_write(self.file_pieces(index, f), MERGE_THRESHOLD as int, bytes));
        assert(piece_fits(part, bytes));
        encode_utf8_valid_utf8(index.files@[f].source@);
        let (before, after) = self.lemma_part_is_written(index, names, f, m);
        if cursor <= end {
            let first = EDITABLE_REGION_START_MARKER.spec_bytes();
            let second = CURSOR_MARKER.spec_bytes();
            let third = EDITABLE_REGION_END_MARKER.spec_bytes();
            let text = with_insertions(bytes, part.insertions, part.start, part.end);
            let (head, behind) = lemma_marked_text(
                bytes,
                part,
                excerpt,
                start,
                cursor,
                end,
                first,
                second,
                third,
                after,
            );
            let marked = first + bytes.subrange(start, cursor) + second + bytes.subrange(
                cursor,
                end,
            );
            assert(text == head + marked + behind);
            lemma_regrouped_excerpt(
                before,
                head,
                first,
                bytes.subrange(start, cursor),
                second,
                bytes.subrange(cursor, end),
                behind,
                after,
            );
            assert(is_excerpt_between(
                self.written(index, names),
                before + head,
                bytes.subrange(start, cursor),
                bytes.subrange(cursor, end),
                behind + after,
            ));
        }
    }

    /// A signature around the excerpt that stands before it is written as it stands in
    /// the file.
    pub proof fn law_signatures_are_written(
        &self,
        index: &IdentifierIndex,
        names: Seq<Seq<char>>,
        k: int,
    )
        requires
            self.fits(index),
            0 <= k < self.excerpt_ranges.parent_signature_ranges@.len(),
            self.excerpt_ranges.parent_signature_ranges@[k].start
                <= self.excerpt_ranges.parent_signature_ranges@[k].end
                <= self.excerpt_ranges.excerpt_range.start,
            self.excerpt_ranges.excerpt_range.start <= self.cursor_offset,
            self.excerpt_ranges.excerpt_range.start <= self.excerpt_ranges.excerpt_range.end,
        ensures
            holds(
                self.written(index, names),
                index.source_of(self.excerpt_file as int).subrange(
                    self.excerpt_ranges.parent_signature_ranges@[k].start as int,
                    self.excerpt_ranges.parent_signature_ranges@[k].end as int,
                ),
            ),
    {
        let f = self.excerpt_file as int;
        let range = self.excerpt_ranges.parent_signature_ranges@[k];
        let parts = self.parts_of(index, f);
        let excerpt = self.excerpt_piece();
        self.law_everything_planned_is_shown(index);
        assert(self.shows(index, f, range.start as int, range.end as int));
        let p = choose|p: int|
            0 <= p < parts.len() && #[trigger] covers_bytes(
                parts[p],
                range.start as int,
                range.end as int,
            );
        let m = self.lemma_excerpt_part(index);
        let part = parts[p];
        assert forall|x: int| 0 <= x < part.insertions.len() implies (
        #[trigger] part.insertions[x]).0 <= range.start || range.end <= part.insertions[x].0 by {
            assert(p == m);
            if part.insertions == excerpt.insertions {
            } else if x < 2 {
                assert(part.insertions.drop_last()[x] == excerpt.insertions[x]);
            } else {
                assert(part.insertions[x] == part.insertions.last());
            }
        }
        self.lemma_covered_text_is_written(
            index,
            names,
            f,
            p,
            range.start as int,
            range.end as int,
        );
    }
}

/// Whether an offset lies in a part, or in a gap of fewer bytes than the threshold
/// behind it.
pub open spec fn is_near(piece: Piece, threshold: int, x: int) -> bool {
    piece.start <= x && (x < piece.end || x + 1 < piece.end + threshold)
}

/// Merging adds nothing but gaps of fewer bytes than the threshold: every offset in a
/// merged part lies in one of the parts or in such a gap behind it.
pub proof fn law_merging_adds_only_small_gaps(
    pieces: Seq<Piece>,
    threshold: int,
    len: int,
    k: int,
    x: int,
)
    requires
        0 <= threshold,
        forall|i: int|
            0 <= i < pieces.len() ==> (#[trigger] pieces[i]).start <= pieces[i].end,
        0 <= k < merged(pieces, threshold, len).len(),
        merged(pieces, threshold, len)[k].start <= x < merged(pieces, threshold, len)[k].end,
    ensures
        exists|i: int| 0 <= i < pieces.len() && #[trigger] is_near(pieces[i], threshold, x),
    decreases pieces.len(),
{
    let shorter = pieces.drop_last();
    let next = pieces.last();
    let n = pieces.len() - 1;
    let before = merged(shorter, threshold, len);
    let parts = merged(pieces, threshold, len);
    assert(pieces[n] == next);
    assert forall|i: int| 0 <= i < shorter.len() implies (#[trigger] shorter[i]).start
        <= shorter[i].end by {
        assert(shorter[i] == pieces[i]);
    }
    law_merged_parts_are_apart(shorter, threshold, len);
    if k < before.len() && x < before[k].end {
        assert(parts[k].start == before[k].start);
        law_merging_adds_only_small_gaps(shorter, threshold, len, k, x);
        let i = choose|i: int|
            0 <= i < shorter.len() && #[trigger] is_near(shorter[i], threshold, x);
        assert(is_near(pieces[i], threshold, x));
    } else if x >= next.start && x < next.end {
        assert(is_near(pieces[n], threshold, x));
    } else {
        assert(joins(before, next, threshold));
        assert(k == before.len() - 1);
        assert(some_ends(shorter, before[k].end));
        let i = choose|i: int|
            0 <= i < shorter.len() && (#[trigger] shorter[i]).end == before[k].end;
        assert(pieces[i] == shorter[i]);
        assert(is_near(pieces[i], threshold, x));
    }
}

impl PlannedPrompt {
    /// Parts of a file that are less than four bytes apart are written as one.
    pub proof fn law_close_parts_are_one(&self, index: &IdentifierIndex, f: int, k: int)
        requires
            0 < k < self.parts_of(index, f).len(),
        ensures
            self.parts_of(index, f)[k - 1].end + 4 <= self.parts_of(index, f)[k].start,
    {
        let pieces = self.file_pieces(index, f);
        law_merged_parts_are_apart(
            stably_sorted(pieces, piece_starts(pieces)),
            MERGE_THRESHOLD as int,
            index.source_of(f).len() as int,
        );
    }
}

/// A part is set off: behind an ellipsis, unless it starts the file, as it stands in the
/// file, up to the end of a line, and before an ellipsis, where it is the last one and
/// does not end the file.
pub proof fn law_part_is_set_off(piece: Piece, bytes: Seq<u8>, last: bool)
    requires
        is_plain(piece),
        piece.end <= bytes.len(),
    ensures
        ({
            let written = written_piece(piece, bytes, last);
            let dots = "...\n".spec_bytes();
            let text = bytes.subrange(piece.start, piece.end);
            let skip = if piece.start > 0 {
                dots.len() as int
            } else {
                0
            };
            let ends_line = text.len() > 0 && text.last() == NEWLINE;
            let stop = skip + text.len() + if ends_line {
                0int
            } else {
                1int
            };
            &&& piece.start > 0 ==> has_prefix(written, dots)
            &&& written.subrange(skip, skip + text.len()) == text
            &&& written[stop - 1] == NEWLINE
            &&& if last && piece.end < bytes.len() {
                written.subrange(stop, written.len() as int) == dots
            } else {
                written.len() == stop
            }
        }),
{
    let written = written_piece(piece, bytes, last);
    let dots = ellipsis();
    let text = bytes.subrange(piece.start, piece.end);
    reveal_strlit("\n");
    vstd::string::is_ascii_spec_bytes("\n");
    assert("\n".is_ascii());
    let newline = "\n".spec_bytes();
    assert(newline =~= seq![NEWLINE]);
    assert(with_insertions(bytes, piece.insertions, piece.start, piece.end) == text);
    assert(concatenated(piece.end_insertions) =~= Seq::<u8>::empty());
    let skip = if piece.start > 0 {
        dots.len() as int
    } else {
        0
    };
    let ends_line = text.len() > 0 && text.last() == NEWLINE;
    let stop = skip + text.len() + if ends_line {
        0int
    } else {
        1int
    };
    if piece.start > 0 {
        assert(written.subrange(0, dots.len() as int) =~= dots);
    }
    assert(written.subrange(skip, skip + text.len()) =~= text);
    if last && piece.end < bytes.len() {
        assert(written.subrange(stop, written.len() as int) =~= dots);
    }
}

} // verus!
