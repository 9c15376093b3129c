//! Definitions that the text around the cursor refers to, with their scores.
use crate::text::{
    lemma_boundary_in_range, lemma_line_end, lemma_line_start, line_end, line_start, NEWLINE,
};
use crate::zeta_context::identifier_index::IdentifierIndex;
use crate::zeta_context::outline::OutlineItem;
use crate::zeta_context::treesitter_util::expand_range_to_line_boundaries;
use std::ops::Range;
use vstd::prelude::*;
use vstd::string::*;
use vstd::utf8::*;

verus! {

/// How much of a definition a snippet shows.
#[derive(Clone, Copy, Debug, PartialEq, Eq, Structural)]
pub enum SnippetStyle {
    Signature,
    Definition,
}

/// A definition that may become part of a prompt. Densities are scores per
/// byte, given by numbers of the same order.
#[derive(Debug)]
pub struct ScoredSnippet {
    pub definition: OutlineItem,
    pub definition_file: usize,
    /// The density of the signature.
    pub signature_density: i64,
    /// The density of the whole definition.
    pub definition_density: i64,
    /// The density of what the definition adds to the signature.
    pub upgrade_density: i64,
}

impl ScoredSnippet {
    /// The lines that a style shows.
    pub open spec fn lines(&self, index: &IdentifierIndex, style: SnippetStyle) -> (int, int) {
        let bytes = index.source_of(self.definition_file as int);
        match style {
            SnippetStyle::Signature => (
                line_start(bytes, self.definition.signature_range.start as int),
                line_end(bytes, self.definition.signature_range.end as int),
            ),
            SnippetStyle::Definition => (
                line_start(bytes, self.definition.item_range.start as int),
                line_end(bytes, self.definition.item_range.end as int),
            ),
        }
    }

    /// The number of bytes that a style shows.
    pub open spec fn len(&self, index: &IdentifierIndex, style: SnippetStyle) -> int {
        self.lines(index, style).1 - self.lines(index, style).0
    }

    /// Whether the definition lies in its file and shows at least the lines of
    /// its signature.
    pub open spec fn fits(&self, index: &IdentifierIndex) -> bool {
        let bytes = index.source_of(self.definition_file as int);
        &&& self.definition_file < index.files@.len()
        &&& self.definition.signature_range.start <= self.definition.signature_range.end
        &&& self.definition.item_range.start <= self.definition.item_range.end
        &&& is_char_boundary(bytes, self.definition.signature_range.start as int)
        &&& is_char_boundary(bytes, self.definition.signature_range.end as int)
        &&& is_char_boundary(bytes, self.definition.item_range.start as int)
        &&& is_char_boundary(bytes, self.definition.item_range.end as int)
        &&& self.len(index, SnippetStyle::Signature) <= self.len(index, SnippetStyle::Definition)
    }

    /// The lines that a style shows.
    pub fn line_range(&self, index: &IdentifierIndex, style: SnippetStyle) -> (r: Range<usize>)
        requires
            self.fits(index),
        ensures
            (r.start as int, r.end as int) == self.lines(index, style),
            r.start <= r.end <= index.source_of(self.definition_file as int).len(),
    {
        let source = index.files[self.definition_file].source.as_str();
        let range = match style {
            SnippetStyle::Signature => {
                self.definition.signature_range.start..self.definition.signature_range.end
            },
            SnippetStyle::Definition => {
                self.definition.item_range.start..self.definition.item_range.end
            },
        };
        expand_range_to_line_boundaries(source, range)
    }
}

/// A signature shows the lines of the signature, a definition those of the whole item,
/// both from the start of a line to the end of one.
pub proof fn law_styles(snippet: ScoredSnippet, index: &IdentifierIndex, style: SnippetStyle)
    requires
        snippet.fits(index),
    ensures
        ({
            let bytes = index.source_of(snippet.definition_file as int);
            let range = match style {
                SnippetStyle::Signature => snippet.definition.signature_range,
                SnippetStyle::Definition => snippet.definition.item_range,
            };
            let (start, end) = snippet.lines(index, style);
            &&& 0 <= start <= range.start <= range.end <= end <= bytes.len()
            &&& start == 0 || bytes[start - 1] == NEWLINE
            &&& end == bytes.len() || bytes[end] == NEWLINE
            &&& forall|i: int| start <= i < range.start ==> bytes[i] != NEWLINE
            &&& forall|i: int| range.end <= i < end ==> bytes[i] != NEWLINE
            &&& snippet.len(index, style) == end - start
        }),
{
    let bytes = index.source_of(snippet.definition_file as int);
    let range = match style {
        SnippetStyle::Signature => snippet.definition.signature_range,
        SnippetStyle::Definition => snippet.definition.item_range,
    };
    encode_utf8_valid_utf8(index.files@[snippet.definition_file as int].source@);
    lemma_boundary_in_range(bytes, range.start as int);
    lemma_boundary_in_range(bytes, range.end as int);
    lemma_line_start(bytes, range.start as int);
    lemma_line_end(bytes, range.end as int);
}

} // verus!
