//! Syntax trees as lists of nodes.
//!
//! A tree is the list of its nodes in the order in which a walk enters them,
//! each with its depth. The subtree of a node is the node and the deeper ones
//! that follow it without a break.
use crate::zeta_context::zed_code::Language;
use tree_sitter::Language as Grammar;
use tree_sitter::Tree;
use vstd::prelude::*;
use vstd::string::*;
use vstd::utf8::*;

verus! {

/// One node of a syntax tree.
#[derive(Clone, Copy, Debug, PartialEq, Eq, Structural)]
pub struct SyntaxNode {
    /// The number of ancestors.
    pub depth: u32,
    /// The kind, by its number in the grammar.
    pub kind_id: u16,
    /// Whether the grammar names the kind.
    pub named: bool,
    /// The field of the parent that holds the node, zero for none.
    pub field_id: u16,
    pub start_byte: usize,
    pub end_byte: usize,
}

/// A tree that the parser made, and its nodes, the root first.
#[derive(Debug)]
pub struct SyntaxTree {
    pub nodes: Vec<SyntaxNode>,
    pub parsed: Tree,
}

/// A tree of the parser.
#[verifier::external_type_specification]
#[verifier::external_body]
pub struct ExTree(Tree);

/// The nodes of a tree of the parser, in the order in which a cursor enters them.
pub uninterp spec fn tree_nodes(tree: Tree) -> Seq<SyntaxNode>;

/// A grammar's language.
#[verifier::external_type_specification]
#[verifier::external_body]
pub struct ExLanguage(Grammar);

/// What parsing a text with a language's grammar yields; nothing where the
/// parser does not accept the language.
pub uninterp spec fn parsed_nodes(
    language: Grammar,
    source: Seq<char>,
) -> Option<Seq<SyntaxNode>>;

/// The number of a node kind in a grammar.
pub uninterp spec fn kind_number(
    language: Grammar,
    kind: Seq<char>,
    named: bool,
) -> u16;

/// The number of a field in a grammar, zero where the grammar has none of
/// that name.
pub uninterp spec fn field_number(language: Grammar, name: Seq<char>) -> u16;

/// `tree_sitter::Parser::parse`: the nodes of the tree depend on the language and the
/// text alone, and there is no tree where `set_language` refuses the language.
#[verifier::external_body]
fn parse_tree(language: &Grammar, source: &str) -> (r: Option<Tree>)
    requires
        source.spec_bytes().len() <= u32::MAX,
    ensures
        match r {
            Some(tree) => parsed_nodes(*language, source@) == Some(tree_nodes(tree)),
            None => parsed_nodes(*language, source@) is None,
        },
{
    let mut parser = tree_sitter::Parser::new();
    parser.set_language(language).ok()?;
    parser.parse(source, None)
}

/// `tree_sitter::Tree::walk`: the nodes of a tree, listed by its `TreeCursor` in the
/// order in which the cursor enters them.
#[verifier::external_body]
fn list_nodes(tree: &Tree) -> (r: Vec<SyntaxNode>)
    ensures
        r@ == tree_nodes(*tree),
{
    let mut cursor = tree.walk();
    let mut nodes = Vec::new();
    loop {
        let node = cursor.node();
        nodes.push(SyntaxNode {
            depth: cursor.depth(), kind_id: node.kind_id(), named: node.is_named(),
            field_id: cursor.field_id().map_or(0, u16::from),
            start_byte: node.start_byte(), end_byte: node.end_byte(),
        });
        if cursor.goto_first_child() { continue; }
        while !cursor.goto_next_sibling() { if !cursor.goto_parent() { return nodes; } }
    }
}

/// `tree_sitter::Language::id_for_node_kind`: a function of the language, the
/// kind's name and whether it is a named kind.
#[verifier::external_body]
pub(crate) fn kind_id(language: &Grammar, kind: &str, named: bool) -> (r: u16)
    ensures
        r == kind_number(*language, kind@, named),
{
    language.id_for_node_kind(kind, named)
}

/// `tree_sitter::Language::field_id_for_name`: a function of the language and
/// the field's name, zero standing for no such field.
#[verifier::external_body]
pub(crate) fn field_id(language: &Grammar, name: &str) -> (r: u16)
    ensures
        r == field_number(*language, name@),
{
    language.field_id_for_name(name).map_or(0, |id| id.get())
}

/// Whether the node at `i` lies below the root and at most one level below the
/// node before it.
pub open spec fn steps_down(nodes: Seq<SyntaxNode>, i: int) -> bool {
    1 <= nodes[i].depth <= nodes[i - 1].depth + 1
}

/// Whether the node at `i` starts where its previous sibling ends or later.
pub open spec fn follows_sibling(nodes: Seq<SyntaxNode>, i: int) -> bool {
    previous_sibling(nodes, i) matches Some(j) ==> nodes[j].end_byte <= nodes[i].start_byte
}

/// Whether a list of nodes is a tree over a text: it starts with the root, its
/// only node of depth zero, no node lies more than one level below the one
/// before it, the nodes stand in the order of their starts, siblings do not
/// overlap, and each node covers a part of the text that begins and ends
/// between characters.
pub open spec fn tree_fits(nodes: Seq<SyntaxNode>, bytes: Seq<u8>) -> bool {
    &&& nodes.len() > 0
    &&& nodes[0].depth == 0
    &&& forall|i: int| 1 <= i < nodes.len() ==> #[trigger] steps_down(nodes, i)
    &&& forall|i: int, j: int|
        0 <= i <= j < nodes.len() ==> (#[trigger] nodes[i]).start_byte <= (
        #[trigger] nodes[j]).start_byte
    &&& forall|i: int| 0 <= i < nodes.len() ==> #[trigger] follows_sibling(nodes, i)
    &&& forall|i: int|
        0 <= i < nodes.len() ==> {
            &&& (#[trigger] nodes[i]).start_byte <= nodes[i].end_byte
            &&& is_char_boundary(bytes, nodes[i].start_byte as int)
            &&& is_char_boundary(bytes, nodes[i].end_byte as int)
        }
}

/// The first position from `j` on that lies outside the subtree of `i`.
pub open spec fn end_from(nodes: Seq<SyntaxNode>, i: int, j: int) -> int
    decreases nodes.len() - j,
{
    if j >= nodes.len() {
        nodes.len() as int
    } else if nodes[j].depth <= nodes[i].depth {
        j
    } else {
        end_from(nodes, i, j + 1)
    }
}

/// The position after the subtree of the node at `i`.
pub open spec fn subtree_end(nodes: Seq<SyntaxNode>, i: int) -> int {
    end_from(nodes, i, i + 1)
}

/// The next node with the same parent.
pub open spec fn next_sibling(nodes: Seq<SyntaxNode>, i: int) -> Option<int> {
    let end = subtree_end(nodes, i);
    if end < nodes.len() && nodes[end].depth == nodes[i].depth {
        Some(end)
    } else {
        None
    }
}

/// The node at `i`'s depth that is reached first from `j` backwards, unless
/// a shallower one is reached before.
pub open spec fn sibling_before(nodes: Seq<SyntaxNode>, i: int, j: int) -> Option<int>
    decreases j + 1,
{
    if j < 0 || nodes[j].depth < nodes[i].depth {
        None
    } else if nodes[j].depth == nodes[i].depth {
        Some(j)
    } else {
        sibling_before(nodes, i, j - 1)
    }
}

/// The previous node with the same parent.
pub open spec fn previous_sibling(nodes: Seq<SyntaxNode>, i: int) -> Option<int> {
    sibling_before(nodes, i, i - 1)
}

/// A subtree is not empty and ends within the tree.
pub proof fn lemma_subtree_end(nodes: Seq<SyntaxNode>, i: int)
    requires
        0 <= i < nodes.len(),
    ensures
        i < subtree_end(nodes, i) <= nodes.len(),
{
    lemma_end_from(nodes, i, i + 1);
}

proof fn lemma_end_from(nodes: Seq<SyntaxNode>, i: int, j: int)
    requires
        0 <= j <= nodes.len(),
    ensures
        j <= end_from(nodes, i, j) <= nodes.len(),
    decreases nodes.len() - j,
{
    if j < nodes.len() && nodes[j].depth > nodes[i].depth {
        lemma_end_from(nodes, i, j + 1);
    }
}

/// The next sibling's previous sibling is the node itself.
pub proof fn lemma_siblings(nodes: Seq<SyntaxNode>, i: int)
    requires
        0 <= i < nodes.len(),
    ensures
        next_sibling(nodes, i) matches Some(j) ==> previous_sibling(nodes, j) == Some(i),
{
    lemma_subtree_end(nodes, i);
    let end = subtree_end(nodes, i);
    if end < nodes.len() && nodes[end].depth == nodes[i].depth {
        lemma_deeper_until(nodes, i, i + 1);
        lemma_sibling_before(nodes, i, end, end - 1);
    }
}

/// A previous sibling stands before the node.
pub proof fn lemma_previous_sibling(nodes: Seq<SyntaxNode>, i: int)
    ensures
        previous_sibling(nodes, i) matches Some(j) ==> 0 <= j < i,
{
    lemma_sibling_before_bounds(nodes, i, i - 1);
}

proof fn lemma_sibling_before_bounds(nodes: Seq<SyntaxNode>, i: int, j: int)
    ensures
        sibling_before(nodes, i, j) matches Some(k) ==> 0 <= k <= j,
    decreases j + 1,
{
    if j >= 0 {
        lemma_sibling_before_bounds(nodes, i, j - 1);
    }
}

proof fn lemma_deeper_until(nodes: Seq<SyntaxNode>, i: int, j: int)
    requires
        0 <= j <= nodes.len(),
    ensures
        forall|k: int|
            j <= k < end_from(nodes, i, j) ==> (#[trigger] nodes[k]).depth > nodes[i].depth,
    decreases nodes.len() - j,
{
    if j < nodes.len() && nodes[j].depth > nodes[i].depth {
        lemma_deeper_until(nodes, i, j + 1);
    }
}

proof fn lemma_sibling_before(nodes: Seq<SyntaxNode>, i: int, j: int, k: int)
    requires
        0 <= i <= k < j < nodes.len(),
        nodes[i].depth == nodes[j].depth,
        forall|m: int| i < m < j ==> (#[trigger] nodes[m]).depth > nodes[i].depth,
    ensures
        sibling_before(nodes, j, k) == Some(i),
    decreases k,
{
    if k > i {
        lemma_sibling_before(nodes, i, j, k - 1);
    }
}

/// The first of the siblings from `c` up to `end` that ends after a byte
/// offset.
pub open spec fn sibling_for_byte(
    nodes: Seq<SyntaxNode>,
    c: int,
    end: int,
    byte: int,
) -> Option<int>
    decreases nodes.len() - c,
    via sibling_for_byte_decreases
{
    if 0 <= c < end <= nodes.len() {
        if nodes[c].end_byte > byte {
            Some(c)
        } else {
            sibling_for_byte(nodes, subtree_end(nodes, c), end, byte)
        }
    } else {
        None
    }
}

#[via_fn]
proof fn sibling_for_byte_decreases(nodes: Seq<SyntaxNode>, c: int, end: int, byte: int) {
    if 0 <= c < end <= nodes.len() {
        lemma_subtree_end(nodes, c);
    }
}

/// The first child of the node at `i` that ends after a byte offset.
pub open spec fn first_child_for_byte(nodes: Seq<SyntaxNode>, i: int, byte: int) -> Option<int> {
    sibling_for_byte(nodes, i + 1, subtree_end(nodes, i), byte)
}

/// The first of the siblings from `c` up to `end` that stands in a field.
pub open spec fn sibling_in_field(
    nodes: Seq<SyntaxNode>,
    c: int,
    end: int,
    field: u16,
) -> Option<int>
    decreases nodes.len() - c,
    via sibling_in_field_decreases
{
    if 0 <= c < end <= nodes.len() {
        if nodes[c].field_id == field {
            Some(c)
        } else {
            sibling_in_field(nodes, subtree_end(nodes, c), end, field)
        }
    } else {
        None
    }
}

#[via_fn]
proof fn sibling_in_field_decreases(nodes: Seq<SyntaxNode>, c: int, end: int, field: u16) {
    if 0 <= c < end <= nodes.len() {
        lemma_subtree_end(nodes, c);
    }
}

/// The first child of the node at `i` that stands in a field of the grammar.
pub open spec fn child_in_field(nodes: Seq<SyntaxNode>, i: int, field: u16) -> Option<int> {
    if field == 0 {
        None
    } else {
        sibling_in_field(nodes, i + 1, subtree_end(nodes, i), field)
    }
}

/// Positions as mathematical integers.
pub open spec fn positions(at: Seq<usize>) -> Seq<int> {
    at.map_values(|i: usize| i as int)
}

/// An optional position as a mathematical integer.
pub open spec fn as_position(i: Option<usize>) -> Option<int> {
    match i {
        Some(i) => Some(i as int),
        None => None,
    }
}

impl SyntaxTree {
    /// The position after the subtree of the node at `i`.
    pub fn subtree_end(&self, i: usize) -> (end: usize)
        requires
            i < self.nodes@.len(),
        ensures
            end == subtree_end(self.nodes@, i as int),
    {
        let len: usize = self.nodes.len();
        let mut j: usize = i + 1;
        while j < len && self.nodes[j].depth > self.nodes[i].depth
            invariant
                i < j <= self.nodes@.len(),
                len == self.nodes@.len(),
                subtree_end(self.nodes@, i as int) == end_from(self.nodes@, i as int, j as int),
            decreases self.nodes@.len() - j,
        {
            j = j + 1;
        }
        j
    }

    /// The next node with the same parent.
    pub fn next_sibling(&self, i: usize) -> (r: Option<usize>)
        requires
            i < self.nodes@.len(),
        ensures
            as_position(r) == next_sibling(self.nodes@, i as int),
            r is Some ==> i < r->0 < self.nodes@.len(),
    {
        proof {
            lemma_subtree_end(self.nodes@, i as int);
        }
        let end = self.subtree_end(i);
        if end < self.nodes.len() && self.nodes[end].depth == self.nodes[i].depth {
            Some(end)
        } else {
            None
        }
    }

    /// The previous node with the same parent.
    pub fn previous_sibling(&self, i: usize) -> (r: Option<usize>)
        requires
            i < self.nodes@.len(),
        ensures
            as_position(r) == previous_sibling(self.nodes@, i as int),
            r is Some ==> r->0 < i,
    {
        let mut j: usize = i;
        while j > 0
            invariant
                j <= i < self.nodes@.len(),
                previous_sibling(self.nodes@, i as int) == sibling_before(
                    self.nodes@,
                    i as int,
                    j - 1,
                ),
            decreases j,
        {
            j = j - 1;
            if self.nodes[j].depth < self.nodes[i].depth {
                return None;
            }
            if self.nodes[j].depth == self.nodes[i].depth {
                return Some(j);
            }
        }
        None
    }

    /// The first child of the node at `i` that ends after a byte offset.
    pub fn first_child_for_byte(&self, i: usize, byte: usize) -> (r: Option<usize>)
        requires
            i < self.nodes@.len(),
        ensures
            as_position(r) == first_child_for_byte(self.nodes@, i as int, byte as int),
            r is Some ==> i < r->0 < self.nodes@.len(),
    {
        proof {
            lemma_subtree_end(self.nodes@, i as int);
        }
        let end = self.subtree_end(i);
        let mut c: usize = i + 1;
        while c < end
            invariant
                i < c,
                end == subtree_end(self.nodes@, i as int),
                end <= self.nodes@.len(),
                first_child_for_byte(self.nodes@, i as int, byte as int) == sibling_for_byte(
                    self.nodes@,
                    c as int,
                    end as int,
                    byte as int,
                ),
            decreases self.nodes@.len() - c,
        {
            if self.nodes[c].end_byte > byte {
                return Some(c);
            }
            proof {
                lemma_subtree_end(self.nodes@, c as int);
            }
            c = self.subtree_end(c);
        }
        None
    }

    /// The first child of the node at `i` that stands in the given field.
    pub fn child_in_field(&self, i: usize, field: u16) -> (r: Option<usize>)
        requires
            i < self.nodes@.len(),
        ensures
            as_position(r) == child_in_field(self.nodes@, i as int, field),
            r is Some ==> i < r->0 < subtree_end(self.nodes@, i as int) <= self.nodes@.len(),
    {
        if field == 0 {
            return None;
        }
        proof {
            lemma_subtree_end(self.nodes@, i as int);
        }
        let end = self.subtree_end(i);
        let mut c: usize = i + 1;
        while c < end
            invariant
                i < c,
                field != 0,
                end == subtree_end(self.nodes@, i as int),
                end <= self.nodes@.len(),
                child_in_field(self.nodes@, i as int, field) == sibling_in_field(
                    self.nodes@,
                    c as int,
                    end as int,
                    field,
                ),
            decreases self.nodes@.len() - c,
        {
            if self.nodes[c].field_id == field {
                return Some(c);
            }
            proof {
                lemma_subtree_end(self.nodes@, c as int);
            }
            c = self.subtree_end(c);
        }
        None
    }

    /// Whether the nodes are those of the tree, and lie in a text.
    pub open spec fn is_over(&self, source: &str) -> bool {
        &&& self.nodes@ == tree_nodes(self.parsed)
        &&& tree_fits(self.nodes@, source.spec_bytes())
    }

    /// Takes a tree of the parser as one over a text, if its nodes lie in the text.
    pub fn new(parsed: Tree, source: &str) -> (r: Option<SyntaxTree>)
        ensures
            r is Some <==> tree_fits(tree_nodes(parsed), source.spec_bytes()),
            r matches Some(tree) ==> tree.parsed == parsed && tree.is_over(source),
    {
        let nodes = list_nodes(&parsed);
        if nodes.len() == 0 || nodes[0].depth != 0 {
            return None;
        }
        let ghost list = nodes@;
        let tree = SyntaxTree { nodes, parsed };
        let mut i: usize = 0;
        while i < tree.nodes.len()
            invariant
                list == tree_nodes(parsed),
                tree.parsed == parsed,
                tree.nodes@ == list,
                tree.nodes@.len() > 0,
                i <= tree.nodes@.len(),
                tree.nodes@[0].depth == 0,
                forall|k: int| 1 <= k < i ==> #[trigger] steps_down(tree.nodes@, k),
                forall|k: int| 0 <= k < i ==> #[trigger] follows_sibling(tree.nodes@, k),
                forall|k: int, j: int|
                    0 <= k <= j < i ==> (#[trigger] tree.nodes@[k]).start_byte <= (
                    #[trigger] tree.nodes@[j]).start_byte,
                forall|k: int|
                    0 <= k < i ==> {
                        &&& (#[trigger] tree.nodes@[k]).start_byte <= tree.nodes@[k].end_byte
                        &&& is_char_boundary(source.spec_bytes(), tree.nodes@[k].start_byte as int)
                        &&& is_char_boundary(source.spec_bytes(), tree.nodes@[k].end_byte as int)
                    },
            decreases tree.nodes@.len() - i,
        {
            let node = tree.nodes[i];
            if node.start_byte > node.end_byte || !source.is_char_boundary(node.start_byte)
                || !source.is_char_boundary(node.end_byte) {
                assert(tree.nodes@[i as int] == node);
                return None;
            }
            if i > 0 {
                let before = tree.nodes[i - 1];
                if node.depth < 1 || node.depth - 1 > before.depth || before.start_byte
                    > node.start_byte {
                    assert(tree.nodes@[i as int] == node && tree.nodes@[i - 1] == before);
                    assert(before.start_byte <= node.start_byte ==> !steps_down(tree.nodes@, i as int));
                    return None;
                }
            }
            if let Some(j) = tree.previous_sibling(i) {
                if tree.nodes[j].end_byte > node.start_byte {
                    assert(!follows_sibling(tree.nodes@, i as int));
                    return None;
                }
            }
            assert(follows_sibling(tree.nodes@, i as int));
            i = i + 1;
        }
        Some(tree)
    }
}

/// Parses a text. There is no tree where the parser does not accept the
/// language, where the text is longer than the parser's offsets reach, and
/// where what the parser lists is no tree over the text.
pub fn parse_source(language: &Language, source: &str) -> (r: Option<SyntaxTree>)
    ensures
        match r {
            Some(tree) => {
                &&& source.spec_bytes().len() <= u32::MAX
                &&& parsed_nodes(language.ts_language, source@) == Some(tree.nodes@)
                &&& tree.is_over(source)
            },
            None => {
                ||| source.spec_bytes().len() > u32::MAX
                ||| parsed_nodes(language.ts_language, source@) is None
                ||| !tree_fits(
                    parsed_nodes(language.ts_language, source@)->0,
                    source.spec_bytes(),
                )
            },
        },
{
    let bytes = source.as_bytes();
    if bytes.len() as u64 > 0xffff_ffff {
        return None;
    }
    match parse_tree(&language.ts_language, source) {
        Some(tree) => SyntaxTree::new(tree, source),
        None => None,
    }
}

/// Whether `b` is the next node after `a` with the same parent: the two are equally
/// deep, and every node between them is deeper.
pub open spec fn are_neighbours(nodes: Seq<SyntaxNode>, a: int, b: int) -> bool {
    &&& 0 <= a < b < nodes.len()
    &&& nodes[a].depth == nodes[b].depth
    &&& forall|k: int| a < k < b ==> (#[trigger] nodes[k]).depth > nodes[a].depth
}

/// Whether the node at `i` encloses the one at `k`: all from the one to the other are
/// deeper than it.
pub open spec fn is_below(nodes: Seq<SyntaxNode>, i: int, k: int) -> bool {
    &&& 0 <= i < k < nodes.len()
    &&& forall|m: int| i < m <= k ==> (#[trigger] nodes[m]).depth > nodes[i].depth
}

/// Whether the node at `c` is a child of the one at `i`.
pub open spec fn is_child(nodes: Seq<SyntaxNode>, i: int, c: int) -> bool {
    is_below(nodes, i, c) && nodes[c].depth == nodes[i].depth + 1
}

/// A node's next and previous siblings are its neighbours, one the other way round
/// than the other.
pub proof fn law_siblings_are_neighbours(nodes: Seq<SyntaxNode>, a: int, b: int)
    requires
        0 <= a < nodes.len(),
        0 <= b < nodes.len(),
    ensures
        next_sibling(nodes, a) == Some(b) <==> are_neighbours(nodes, a, b),
        previous_sibling(nodes, b) == Some(a) <==> are_neighbours(nodes, a, b),
{
    lemma_subtree_end(nodes, a);
    lemma_deeper_until(nodes, a, a + 1);
    let end = subtree_end(nodes, a);
    if are_neighbours(nodes, a, b) {
        lemma_end_at(nodes, a, a + 1);
        assert(end == b) by {
            if end < b {
                assert(nodes[end].depth > nodes[a].depth);
            }
            if b < end {
                assert(nodes[b].depth > nodes[a].depth);
            }
        }
        lemma_sibling_before(nodes, a, b, b - 1);
    }
    if next_sibling(nodes, a) == Some(b) {
        assert(are_neighbours(nodes, a, b));
    }
    if previous_sibling(nodes, b) == Some(a) {
        lemma_sibling_before_found(nodes, b, b - 1);
        assert(are_neighbours(nodes, a, b));
    }
}

/// What ends a subtree is not deeper than its root.
proof fn lemma_end_at(nodes: Seq<SyntaxNode>, i: int, j: int)
    requires
        0 <= j <= nodes.len(),
    ensures
        end_from(nodes, i, j) < nodes.len() ==> nodes[end_from(nodes, i, j)].depth
            <= nodes[i].depth,
    decreases nodes.len() - j,
{
    if j < nodes.len() && nodes[j].depth > nodes[i].depth {
        lemma_end_at(nodes, i, j + 1);
    }
}

proof fn lemma_sibling_before_found(nodes: Seq<SyntaxNode>, i: int, j: int)
    requires
        j < nodes.len(),
    ensures
        sibling_before(nodes, i, j) matches Some(k) ==> {
            &&& 0 <= k <= j
            &&& nodes[k].depth == nodes[i].depth
            &&& forall|m: int| k < m <= j ==> (#[trigger] nodes[m]).depth > nodes[i].depth
        },
    decreases j + 1,
{
    if j >= 0 {
        lemma_sibling_before_found(nodes, i, j - 1);
    }
}

/// A subtree holds exactly the nodes that its root encloses.
pub proof fn law_subtree_is_what_lies_below(nodes: Seq<SyntaxNode>, i: int, k: int)
    requires
        0 <= i < k < nodes.len(),
    ensures
        k < subtree_end(nodes, i) <==> is_below(nodes, i, k),
{
    lemma_subtree_end(nodes, i);
    lemma_deeper_until(nodes, i, i + 1);
    lemma_end_at(nodes, i, i + 1);
    if k >= subtree_end(nodes, i) {
        assert(nodes[subtree_end(nodes, i)].depth <= nodes[i].depth);
    }
}

/// The nodes of a tree below one of its nodes begin with a child.
proof fn lemma_first_child(nodes: Seq<SyntaxNode>, i: int)
    requires
        0 <= i < nodes.len(),
        forall|k: int| 1 <= k < nodes.len() ==> #[trigger] steps_down(nodes, k),
    ensures
        i + 1 < subtree_end(nodes, i) ==> is_child(nodes, i, i + 1),
{
    lemma_subtree_end(nodes, i);
    if i + 1 < subtree_end(nodes, i) {
        law_subtree_is_what_lies_below(nodes, i, i + 1);
        assert(steps_down(nodes, i + 1));
        assert(nodes[i + 1].depth > nodes[i].depth);
    }
}

/// After the subtree of a child comes the next child, or the parent's subtree ends;
/// none lies between.
proof fn lemma_next_child(nodes: Seq<SyntaxNode>, i: int, c: int)
    requires
        is_child(nodes, i, c),
        c < subtree_end(nodes, i),
        forall|k: int| 1 <= k < nodes.len() ==> #[trigger] steps_down(nodes, k),
    ensures
        c < subtree_end(nodes, c) <= subtree_end(nodes, i),
        subtree_end(nodes, c) < subtree_end(nodes, i) ==> is_child(
            nodes,
            i,
            subtree_end(nodes, c),
        ),
        forall|d: int| c < d < subtree_end(nodes, c) ==> !#[trigger] is_child(nodes, i, d),
{
    lemma_subtree_end(nodes, i);
    lemma_subtree_end(nodes, c);
    lemma_deeper_until(nodes, c, c + 1);
    lemma_deeper_until(nodes, i, i + 1);
    lemma_end_at(nodes, c, c + 1);
    lemma_end_at(nodes, i, i + 1);
    let end = subtree_end(nodes, c);
    if end > subtree_end(nodes, i) {
        assert(nodes[subtree_end(nodes, i)].depth > nodes[c].depth);
    }
    if end < subtree_end(nodes, i) {
        assert(nodes[end].depth > nodes[i].depth);
        assert(is_below(nodes, i, end));
    }
    assert forall|d: int| c < d < end implies !#[trigger] is_child(nodes, i, d) by {
        assert(nodes[d].depth > nodes[c].depth);
    }
}

/// The child found for a byte offset is the first that ends after it.
pub proof fn law_child_for_byte(nodes: Seq<SyntaxNode>, bytes: Seq<u8>, i: int, byte: int)
    requires
        tree_fits(nodes, bytes),
        0 <= i < nodes.len(),
    ensures
        match first_child_for_byte(nodes, i, byte) {
            Some(c) => {
                &&& is_child(nodes, i, c)
                &&& nodes[c].end_byte > byte
                &&& forall|d: int| #[trigger]
                    is_child(nodes, i, d) && nodes[d].end_byte > byte ==> c <= d
            },
            None => forall|d: int| #[trigger]
                is_child(nodes, i, d) ==> nodes[d].end_byte <= byte,
        },
{
    lemma_first_child(nodes, i);
    lemma_subtree_end(nodes, i);
    lemma_child_for_byte(nodes, i, i + 1, byte);
    assert forall|d: int| #[trigger] is_child(nodes, i, d) implies i + 1 <= d < subtree_end(
        nodes,
        i,
    ) by {
        law_subtree_is_what_lies_below(nodes, i, d);
    }
}

proof fn lemma_child_for_byte(nodes: Seq<SyntaxNode>, i: int, c: int, byte: int)
    requires
        0 <= i < c <= subtree_end(nodes, i) <= nodes.len(),
        c < subtree_end(nodes, i) ==> is_child(nodes, i, c),
        forall|k: int| 1 <= k < nodes.len() ==> #[trigger] steps_down(nodes, k),
    ensures
        match sibling_for_byte(nodes, c, subtree_end(nodes, i), byte) {
            Some(d) => {
                &&& c <= d
                &&& is_child(nodes, i, d)
                &&& nodes[d].end_byte > byte
                &&& forall|e: int|
                    c <= e && #[trigger] is_child(nodes, i, e) && nodes[e].end_byte > byte ==> d
                        <= e
            },
            None => forall|e: int|
                c <= e < subtree_end(nodes, i) && #[trigger] is_child(nodes, i, e)
                    ==> nodes[e].end_byte <= byte,
        },
    decreases nodes.len() - c,
{
    if c < subtree_end(nodes, i) {
        lemma_next_child(nodes, i, c);
        if nodes[c].end_byte <= byte {
            lemma_child_for_byte(nodes, i, subtree_end(nodes, c), byte);
        }
    }
}

/// The child found in a field is the first that stands in it.
pub proof fn law_child_in_field(nodes: Seq<SyntaxNode>, bytes: Seq<u8>, i: int, field: u16)
    requires
        tree_fits(nodes, bytes),
        0 <= i < nodes.len(),
        field != 0,
    ensures
        match child_in_field(nodes, i, field) {
            Some(c) => {
                &&& is_child(nodes, i, c)
                &&& nodes[c].field_id == field
                &&& forall|d: int| #[trigger]
                    is_child(nodes, i, d) && nodes[d].field_id == field ==> c <= d
            },
            None => forall|d: int| #[trigger]
                is_child(nodes, i, d) ==> nodes[d].field_id != field,
        },
{
    lemma_first_child(nodes, i);
    lemma_subtree_end(nodes, i);
    lemma_child_in_field_from(nodes, i, i + 1, field);
    assert forall|d: int| #[trigger] is_child(nodes, i, d) implies i + 1 <= d < subtree_end(
        nodes,
        i,
    ) by {
        law_subtree_is_what_lies_below(nodes, i, d);
    }
}

proof fn lemma_child_in_field_from(nodes: Seq<SyntaxNode>, i: int, c: int, field: u16)
    requires
        0 <= i < c <= subtree_end(nodes, i) <= nodes.len(),
        c < subtree_end(nodes, i) ==> is_child(nodes, i, c),
        forall|k: int| 1 <= k < nodes.len() ==> #[trigger] steps_down(nodes, k),
    ensures
        match sibling_in_field(nodes, c, subtree_end(nodes, i), field) {
            Some(d) => {
                &&& c <= d
                &&& is_child(nodes, i, d)
                &&& nodes[d].field_id == field
                &&& forall|e: int|
                    c <= e && #[trigger] is_child(nodes, i, e) && nodes[e].field_id == field
                        ==> d <= e
            },
            None => forall|e: int|
                c <= e < subtree_end(nodes, i) && #[trigger] is_child(nodes, i, e)
                    ==> nodes[e].field_id != field,
        },
    decreases nodes.len() - c,
{
    if c < subtree_end(nodes, i) {
        lemma_next_child(nodes, i, c);
        if nodes[c].field_id != field {
            lemma_child_in_field_from(nodes, i, subtree_end(nodes, c), field);
        }
    }
}

/// The children of a node, counted off from the first to the next after each subtree,
/// are all of its children.
pub proof fn lemma_children(nodes: Seq<SyntaxNode>, bytes: Seq<u8>, i: int, c: int)
    requires
        tree_fits(nodes, bytes),
        0 <= i < nodes.len(),
        c == i + 1 || is_child(nodes, i, c),
    ensures
        i < subtree_end(nodes, i) <= nodes.len(),
        i + 1 < subtree_end(nodes, i) ==> is_child(nodes, i, i + 1),
        forall|d: int| #[trigger] is_child(nodes, i, d) ==> i < d < subtree_end(nodes, i),
        c < subtree_end(nodes, i) ==> {
            &&& is_child(nodes, i, c)
            &&& c < subtree_end(nodes, c) <= subtree_end(nodes, i)
            &&& subtree_end(nodes, c) < subtree_end(nodes, i) ==> is_child(
                nodes,
                i,
                subtree_end(nodes, c),
            )
            &&& forall|d: int|
                c < d < subtree_end(nodes, c) ==> !#[trigger] is_child(nodes, i, d)
        },
{
    lemma_first_child(nodes, i);
    lemma_subtree_end(nodes, i);
    assert forall|d: int| #[trigger] is_child(nodes, i, d) implies i < d < subtree_end(
        nodes,
        i,
    ) by {
        law_subtree_is_what_lies_below(nodes, i, d);
    }
    if c < subtree_end(nodes, i) {
        lemma_next_child(nodes, i, c);
    }
}

} // verus!
