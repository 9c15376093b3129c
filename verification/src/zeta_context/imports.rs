//! The symbols that a source file imports.
use crate::text::{lemma_boundary_in_range, slice, str_eq};
use crate::zeta_context::syntax::{
    child_in_field, field_id, field_number, follows_sibling, is_child, kind_id, kind_number,
    law_siblings_are_neighbours, lemma_children, lemma_subtree_end, next_sibling, positions,
    sibling_in_field, subtree_end, tree_fits, SyntaxNode, SyntaxTree,
};
use crate::zeta_context::zed_code::Language;
use std::ops::Range;
use tree_sitter::Language as Grammar;
use vstd::prelude::*;
use vstd::string::*;
use vstd::utf8::*;

verus! {

/// A name in source text.
#[derive(Debug, PartialEq, Eq)]
pub struct Identifier(pub String);

/// The names that lead to a symbol, the outermost first.
#[derive(Debug, PartialEq, Eq)]
pub struct Namespace(pub Vec<Identifier>);

/// The import declarations at the top of a file.
#[derive(Debug)]
pub struct Imports {
    /// The bytes from the first declaration to the last.
    pub range: Range<usize>,
    /// The imported symbols in the order of the text.
    pub symbols: Vec<(Namespace, Identifier)>,
}

/// A parsed file.
pub struct CollectImportsInput<'a> {
    pub language: &'a Language,
    pub tree: &'a SyntaxTree,
    pub source: &'a str,
}

/// The numbers of the node kinds and fields that import declarations are made of.
#[derive(Clone, Copy)]
pub struct ImportKinds {
    pub scoped_identifier: u16,
    pub scoped_use_list: u16,
    pub use_list: u16,
    pub identifier: u16,
    pub path: u16,
    pub name: u16,
    pub list: u16,
}

/// The text of a node.
pub open spec fn node_bytes(bytes: Seq<u8>, node: SyntaxNode) -> Seq<u8> {
    bytes.subrange(node.start_byte as int, node.end_byte as int)
}

/// The encodings of the names of a namespace.
pub open spec fn name_bytes(names: Seq<Identifier>) -> Seq<Seq<u8>> {
    names.map_values(|name: Identifier| encode_utf8(name.0@))
}

/// The encodings of symbols: the namespace and the name of each.
pub open spec fn symbol_bytes(symbols: Seq<(Namespace, Identifier)>) -> Seq<
    (Seq<Seq<u8>>, Seq<u8>),
> {
    symbols.map_values(
        |symbol: (Namespace, Identifier)|
            (name_bytes(symbol.0.0@), encode_utf8(symbol.1.0@)),
    )
}

/// A child found by its field lies in the subtree.
proof fn lemma_child_in_field(nodes: Seq<SyntaxNode>, i: int, field: u16)
    requires
        0 <= i < nodes.len(),
    ensures
        child_in_field(nodes, i, field) matches Some(c) ==> i < c < nodes.len(),
{
    lemma_subtree_end(nodes, i);
    lemma_sibling_in_field(nodes, i + 1, subtree_end(nodes, i), field);
}

proof fn lemma_sibling_in_field(nodes: Seq<SyntaxNode>, c: int, end: int, field: u16)
    requires
        0 <= c,
        end <= nodes.len(),
    ensures
        sibling_in_field(nodes, c, end, field) matches Some(d) ==> c <= d < end,
    decreases nodes.len() - c,
{
    if c < end && nodes[c].field_id != field {
        lemma_subtree_end(nodes, c);
        lemma_sibling_in_field(nodes, subtree_end(nodes, c), end, field);
    }
}

/// The names of a path: those of `a::b` are the names of `a` followed by `b`,
/// and what is not such a path is one name.
pub open spec fn path_names(
    nodes: Seq<SyntaxNode>,
    bytes: Seq<u8>,
    i: int,
    kinds: ImportKinds,
) -> Seq<Seq<u8>>
    decreases nodes.len() - i,
    via path_names_decreases
{
    if i < 0 || i >= nodes.len() {
        Seq::empty()
    } else if nodes[i].kind_id == kinds.scoped_identifier {
        match (child_in_field(nodes, i, kinds.path), child_in_field(nodes, i, kinds.name)) {
            (Some(path), Some(name)) => path_names(nodes, bytes, path, kinds) + (
            if nodes[name].kind_id == kinds.identifier {
                seq![node_bytes(bytes, nodes[name])]
            } else {
                Seq::empty()
            }),
            _ => Seq::empty(),
        }
    } else {
        seq![node_bytes(bytes, nodes[i])]
    }
}

#[via_fn]
proof fn path_names_decreases(
    nodes: Seq<SyntaxNode>,
    bytes: Seq<u8>,
    i: int,
    kinds: ImportKinds,
) {
    if 0 <= i < nodes.len() {
        lemma_child_in_field(nodes, i, kinds.path);
    }
}

/// The symbols that the node at `i` imports into a file, below `namespace`:
/// a path imports its last name, a list after a path imports what its members
/// import below that path, a name imports itself, and any other node imports
/// what its named children import.
pub open spec fn imported(
    nodes: Seq<SyntaxNode>,
    bytes: Seq<u8>,
    i: int,
    namespace: Seq<Seq<u8>>,
    kinds: ImportKinds,
) -> Seq<(Seq<Seq<u8>>, Seq<u8>)>
    decreases nodes.len() - i, 0int,
    via imported_decreases
{
    if i < 0 || i >= nodes.len() {
        Seq::empty()
    } else if nodes[i].kind_id == kinds.scoped_identifier {
        match (child_in_field(nodes, i, kinds.path), child_in_field(nodes, i, kinds.name)) {
            (Some(path), Some(name)) => if nodes[name].kind_id == kinds.identifier {
                seq![
                    (
                        namespace + path_names(nodes, bytes, path, kinds),
                        node_bytes(bytes, nodes[name]),
                    ),
                ]
            } else {
                Seq::empty()
            },
            _ => Seq::empty(),
        }
    } else if nodes[i].kind_id == kinds.scoped_use_list {
        match (child_in_field(nodes, i, kinds.path), child_in_field(nodes, i, kinds.list)) {
            (Some(path), Some(list)) => imported(
                nodes,
                bytes,
                list,
                namespace + path_names(nodes, bytes, path, kinds),
                kinds,
            ),
            _ => Seq::empty(),
        }
    } else if nodes[i].kind_id != kinds.use_list && nodes[i].kind_id == kinds.identifier {
        seq![(namespace, node_bytes(bytes, nodes[i]))]
    } else {
        imported_among(nodes, bytes, i + 1, subtree_end(nodes, i), namespace, kinds)
    }
}

/// The symbols that the named ones of the siblings from `c` up to `end` import.
pub open spec fn imported_among(
    nodes: Seq<SyntaxNode>,
    bytes: Seq<u8>,
    c: int,
    end: int,
    namespace: Seq<Seq<u8>>,
    kinds: ImportKinds,
) -> Seq<(Seq<Seq<u8>>, Seq<u8>)>
    decreases nodes.len() - c, 1int,
    via imported_among_decreases
{
    if 0 <= c < end <= nodes.len() {
        (if nodes[c].named {
            imported(nodes, bytes, c, namespace, kinds)
        } else {
            Seq::empty()
        }) + imported_among(nodes, bytes, subtree_end(nodes, c), end, namespace, kinds)
    } else {
        Seq::empty()
    }
}

#[via_fn]
proof fn imported_decreases(
    nodes: Seq<SyntaxNode>,
    bytes: Seq<u8>,
    i: int,
    namespace: Seq<Seq<u8>>,
    kinds: ImportKinds,
) {
    if 0 <= i < nodes.len() {
        lemma_child_in_field(nodes, i, kinds.list);
    }
}

#[via_fn]
proof fn imported_among_decreases(
    nodes: Seq<SyntaxNode>,
    bytes: Seq<u8>,
    c: int,
    end: int,
    namespace: Seq<Seq<u8>>,
    kinds: ImportKinds,
) {
    if 0 <= c < end <= nodes.len() {
        lemma_subtree_end(nodes, c);
    }
}

/// A copy of a list of names.
fn copy_names(names: &Vec<Identifier>) -> (r: Vec<Identifier>)
    ensures
        name_bytes(r@) == name_bytes(names@),
{
    let mut r: Vec<Identifier> = Vec::new();
    let mut i: usize = 0;
    while i < names.len()
        invariant
            i <= names@.len(),
            r@.len() == i,
            forall|k: int| 0 <= k < i ==> (#[trigger] r@[k]).0@ == names@[k].0@,
        decreases names@.len() - i,
    {
        r.push(Identifier(names[i].0.clone()));
        i = i + 1;
    }
    assert(name_bytes(r@) =~= name_bytes(names@));
    r
}

impl CollectImportsInput<'_> {
    /// Whether the tree is one over the text.
    pub open spec fn fits(&self) -> bool {
        tree_fits(self.tree.nodes@, self.source.spec_bytes())
    }

    /// The text of the node at `i`.
    fn node_text<'a>(tree: &SyntaxTree, i: usize, source: &'a str) -> (r: &'a str)
        requires
            tree_fits(tree.nodes@, source.spec_bytes()),
            i < tree.nodes@.len(),
        ensures
            r.spec_bytes() == node_bytes(source.spec_bytes(), tree.nodes@[i as int]),
    {
        let node = tree.nodes[i];
        assert(tree.nodes@[i as int] == node);
        slice(source, node.start_byte, node.end_byte)
    }

    /// Appends the names of the path at `i`.
    fn extract_path_to_namespace(
        tree: &SyntaxTree,
        i: usize,
        namespace: &mut Vec<Identifier>,
        kinds: ImportKinds,
        source: &str,
    )
        requires
            tree_fits(tree.nodes@, source.spec_bytes()),
            i < tree.nodes@.len(),
        ensures
            name_bytes(final(namespace)@) == name_bytes(old(namespace)@) + path_names(
                tree.nodes@,
                source.spec_bytes(),
                i as int,
                kinds,
            ),
        decreases tree.nodes@.len() - i,
    {
        let ghost before = name_bytes(namespace@);
        if tree.nodes[i].kind_id == kinds.scoped_identifier {
            let path = tree.child_in_field(i, kinds.path);
            let name = tree.child_in_field(i, kinds.name);
            if let (Some(path), Some(name)) = (path, name) {
                Self::extract_path_to_namespace(tree, path, namespace, kinds, source);
                if tree.nodes[name].kind_id == kinds.identifier {
                    let ghost inner = name_bytes(namespace@);
                    let text = Self::node_text(tree, name, source);
                    namespace.push(Identifier(text.to_owned()));
                    assert(name_bytes(namespace@) =~= inner.push(text.spec_bytes()));
                }
            }
        } else {
            let text = Self::node_text(tree, i, source);
            namespace.push(Identifier(text.to_owned()));
            assert(name_bytes(namespace@) =~= before.push(text.spec_bytes()));
        }
        assert(name_bytes(namespace@) =~= before + path_names(
            tree.nodes@,
            source.spec_bytes(),
            i as int,
            kinds,
        ));
    }

    /// Appends the symbols that the node at `i` imports below a namespace.
    fn extract_symbols_from_node(
        tree: &SyntaxTree,
        i: usize,
        current_namespace: &Vec<Identifier>,
        symbols: &mut Vec<(Namespace, Identifier)>,
        kinds: ImportKinds,
        source: &str,
    )
        requires
            tree_fits(tree.nodes@, source.spec_bytes()),
            i < tree.nodes@.len(),
        ensures
            symbol_bytes(final(symbols)@) == symbol_bytes(old(symbols)@) + imported(
                tree.nodes@,
                source.spec_bytes(),
                i as int,
                name_bytes(current_namespace@),
                kinds,
            ),
        decreases tree.nodes@.len() - i,
    {
        let ghost nodes = tree.nodes@;
        let ghost bytes = source.spec_bytes();
        let ghost outer = name_bytes(current_namespace@);
        let ghost before = symbol_bytes(symbols@);
        let kind: u16 = tree.nodes[i].kind_id;
        if kind == kinds.scoped_identifier {
            let path = tree.child_in_field(i, kinds.path);
            let name = tree.child_in_field(i, kinds.name);
            if let (Some(path), Some(name)) = (path, name) {
                let mut namespace = copy_names(current_namespace);
                Self::extract_path_to_namespace(tree, path, &mut namespace, kinds, source);
                if tree.nodes[name].kind_id == kinds.identifier {
                    let text = Self::node_text(tree, name, source);
                    let ghost names = name_bytes(namespace@);
                    symbols.push((Namespace(namespace), Identifier(text.to_owned())));
                    assert(symbol_bytes(symbols@) =~= before.push((names, text.spec_bytes())));
                }
            }
        } else if kind == kinds.scoped_use_list {
            let path = tree.child_in_field(i, kinds.path);
            let list = tree.child_in_field(i, kinds.list);
            if let (Some(path), Some(list)) = (path, list) {
                let mut namespace = copy_names(current_namespace);
                Self::extract_path_to_namespace(tree, path, &mut namespace, kinds, source);
                Self::extract_symbols_from_node(tree, list, &namespace, symbols, kinds, source);
            }
        } else if kind != kinds.use_list && kind == kinds.identifier {
            let text = Self::node_text(tree, i, source);
            symbols.push((Namespace(copy_names(current_namespace)), Identifier(text.to_owned())));
            assert(symbol_bytes(symbols@) =~= before.push((outer, text.spec_bytes())));
        } else {
            let end = tree.subtree_end(i);
            proof {
                lemma_subtree_end(nodes, i as int);
                assert(before + imported_among(nodes, bytes, i + 1, end as int, outer, kinds)
                    =~= symbol_bytes(symbols@) + imported_among(
                    nodes,
                    bytes,
                    i + 1,
                    end as int,
                    outer,
                    kinds,
                ));
            }
            let mut c: usize = i + 1;
            while c < end
                invariant
                    i < c,
                    end <= nodes.len(),
                    nodes == tree.nodes@,
                    bytes == source.spec_bytes(),
                    outer == name_bytes(current_namespace@),
                    tree_fits(nodes, bytes),
                    before + imported_among(nodes, bytes, i + 1, end as int, outer, kinds)
                        == symbol_bytes(symbols@) + imported_among(
                        nodes,
                        bytes,
                        c as int,
                        end as int,
                        outer,
                        kinds,
                    ),
                decreases nodes.len() - c,
            {
                proof {
                    lemma_subtree_end(nodes, c as int);
                }
                let ghost sofar = symbol_bytes(symbols@);
                if tree.nodes[c].named {
                    Self::extract_symbols_from_node(
                        tree,
                        c,
                        current_namespace,
                        symbols,
                        kinds,
                        source,
                    );
                }
                let next = tree.subtree_end(c);
                assert(sofar + imported_among(nodes, bytes, c as int, end as int, outer, kinds)
                    =~= symbol_bytes(symbols@) + imported_among(
                    nodes,
                    bytes,
                    next as int,
                    end as int,
                    outer,
                    kinds,
                ));
                c = next;
            }
            assert(symbol_bytes(symbols@) =~= before + imported_among(
                nodes,
                bytes,
                i + 1,
                end as int,
                outer,
                kinds,
            ));
        }
        assert(symbol_bytes(symbols@) =~= before + imported(nodes, bytes, i as int, outer, kinds));
    }

    /// Appends the symbols that the import declaration at `i` names.
    pub fn add_rust_import_symbols(
        &self,
        i: usize,
        symbols: &mut Vec<(Namespace, Identifier)>,
    )
        requires
            self.fits(),
            i < self.tree.nodes@.len(),
        ensures
            symbol_bytes(final(symbols)@) == symbol_bytes(old(symbols)@) + declared(
                self.tree.nodes@,
                self.source.spec_bytes(),
                i as int,
                field_number(self.language.ts_language, "argument"@),
                import_kinds(self.language.ts_language),
            ),
    {
        let language = &self.language.ts_language;
        let kinds = ImportKinds {
            scoped_identifier: kind_id(language, "scoped_identifier", true),
            scoped_use_list: kind_id(language, "scoped_use_list", true),
            use_list: kind_id(language, "use_list", true),
            identifier: kind_id(language, "identifier", true),
            path: field_id(language, "path"),
            name: field_id(language, "name"),
            list: field_id(language, "list"),
        };
        let ghost before = symbol_bytes(symbols@);
        if let Some(argument) = self.tree.child_in_field(i, field_id(language, "argument")) {
            let outermost: Vec<Identifier> = Vec::new();
            assert(name_bytes(outermost@) =~= Seq::<Seq<u8>>::empty());
            Self::extract_symbols_from_node(
                self.tree,
                argument,
                &outermost,
                symbols,
                kinds,
                self.source,
            );
        } else {
            assert(symbol_bytes(symbols@) =~= before + Seq::<(Seq<Seq<u8>>, Seq<u8>)>::empty());
        }
    }

    /// The positions of the import declarations among the root's children, up
    /// to the first child that declares something else.
    pub fn find_rust_imports(&self) -> (found: Vec<usize>)
        requires
            self.fits(),
        ensures
            positions(found@) == rust_imports(self.tree.nodes@, self.language.ts_language),
            forall|k: int| 0 <= k < found@.len() ==> #[trigger] found@[k] < self.tree.nodes@.len(),
    {
        let language = &self.language.ts_language;
        let use_id: u16 = kind_id(language, "use_declaration", true);
        let struct_id: u16 = kind_id(language, "struct_item", true);
        let impl_id: u16 = kind_id(language, "impl_item", true);
        let function_id: u16 = kind_id(language, "function_item", true);
        let trait_id: u16 = kind_id(language, "trait_item", true);
        let static_id: u16 = kind_id(language, "static_item", true);
        let ghost nodes = self.tree.nodes@;
        let ghost ts_language = self.language.ts_language;
        proof {
            lemma_subtree_end(nodes, 0);
        }
        let end = self.tree.subtree_end(0);
        let mut found: Vec<usize> = Vec::new();
        let mut c: usize = 1;
        assert(positions(found@) + top_imports(nodes, 1, end as int, ts_language) =~= top_imports(
            nodes,
            1,
            end as int,
            ts_language,
        ));
        while c < end
            invariant
                nodes == self.tree.nodes@,
                ts_language == self.language.ts_language,
                1 <= c,
                end <= nodes.len(),
                end == subtree_end(nodes, 0),
                use_id == kind_number(ts_language, "use_declaration"@, true),
                struct_id == kind_number(ts_language, "struct_item"@, true),
                impl_id == kind_number(ts_language, "impl_item"@, true),
                function_id == kind_number(ts_language, "function_item"@, true),
                trait_id == kind_number(ts_language, "trait_item"@, true),
                static_id == kind_number(ts_language, "static_item"@, true),
                forall|k: int| 0 <= k < found@.len() ==> #[trigger] found@[k] < nodes.len(),
                rust_imports(nodes, ts_language) == positions(found@) + top_imports(
                    nodes,
                    c as int,
                    end as int,
                    ts_language,
                ),
            decreases nodes.len() - c,
        {
            let kind: u16 = self.tree.nodes[c].kind_id;
            let ghost sofar = positions(found@);
            if kind == use_id {
                found.push(c);
                assert(positions(found@) =~= sofar.push(c as int));
            }
            proof {
                lemma_subtree_end(nodes, c as int);
            }
            if kind == struct_id || kind == impl_id || kind == function_id || kind == trait_id
                || kind == static_id {
                assert(positions(found@) =~= rust_imports(nodes, ts_language));
                return found;
            }
            let next = self.tree.subtree_end(c);
            assert(positions(found@) + top_imports(nodes, next as int, end as int, ts_language)
                =~= rust_imports(nodes, ts_language));
            c = next;
        }
        assert(positions(found@) =~= rust_imports(nodes, ts_language));
        found
    }

    /// The imports at the top of a Rust file, if there are any.
    pub fn collect_rust_imports(&self) -> (r: Option<Imports>)
        requires
            self.fits(),
        ensures
            self.describes(r),
    {
        let found = self.find_rust_imports();
        if found.len() == 0 {
            return None;
        }
        let ghost list = positions(found@);
        let mut symbols: Vec<(Namespace, Identifier)> = Vec::new();
        let mut k: usize = 0;
        assert(symbol_bytes(symbols@) =~= self.all_declared(list.take(0)));
        while k < found.len()
            invariant
                self.fits(),
                k <= found@.len(),
                list == positions(found@),
                forall|k: int|
                    0 <= k < found@.len() ==> #[trigger] found@[k] < self.tree.nodes@.len(),
                symbol_bytes(symbols@) == self.all_declared(list.take(k as int)),
            decreases found@.len() - k,
        {
            self.add_rust_import_symbols(found[k], &mut symbols);
            assert(list.take(k + 1).drop_last() =~= list.take(k as int));
            k = k + 1;
        }
        assert(list.take(k as int) =~= list);
        let first = self.tree.nodes[found[0]];
        let last = self.tree.nodes[found[found.len() - 1]];
        Some(Imports { range: first.start_byte..last.end_byte, symbols })
    }

    /// The imports of a file whose language is supported.
    pub fn collect_imports(&self) -> (r: Option<Imports>)
        requires
            self.fits(),
        ensures
            self.language.name.0@ == "rust"@ ==> self.describes(r),
            self.language.name.0@ != "rust"@ ==> r is None,
    {
        if str_eq(self.language.name.0.as_str(), "rust") {
            self.collect_rust_imports()
        } else {
            None
        }
    }

    /// What the declarations at several positions import, one after another.
    pub open spec fn all_declared(&self, list: Seq<int>) -> Seq<(Seq<Seq<u8>>, Seq<u8>)>
        decreases list.len(),
    {
        if list.len() == 0 {
            Seq::empty()
        } else {
            self.all_declared(list.drop_last()) + declared(
                self.tree.nodes@,
                self.source.spec_bytes(),
                list.last(),
                field_number(self.language.ts_language, "argument"@),
                import_kinds(self.language.ts_language),
            )
        }
    }

    /// Whether `r` are the imports of the file: none where it has no import
    /// declaration, otherwise the range from the first to the last and the
    /// symbols of all.
    pub open spec fn describes(&self, r: Option<Imports>) -> bool {
        let list = rust_imports(self.tree.nodes@, self.language.ts_language);
        match r {
            None => list.len() == 0,
            Some(imports) => {
                &&& list.len() > 0
                &&& imports.range.start == self.tree.nodes@[list[0]].start_byte
                &&& imports.range.end == self.tree.nodes@[list.last()].end_byte
                &&& symbol_bytes(imports.symbols@) == self.all_declared(list)
            },
        }
    }
}

/// The kinds and fields of import declarations in a grammar.
pub open spec fn import_kinds(language: Grammar) -> ImportKinds {
    ImportKinds {
        scoped_identifier: kind_number(language, "scoped_identifier"@, true),
        scoped_use_list: kind_number(language, "scoped_use_list"@, true),
        use_list: kind_number(language, "use_list"@, true),
        identifier: kind_number(language, "identifier"@, true),
        path: field_number(language, "path"@),
        name: field_number(language, "name"@),
        list: field_number(language, "list"@),
    }
}

/// The symbols that the declaration at `i` imports: those of its argument.
pub open spec fn declared(
    nodes: Seq<SyntaxNode>,
    bytes: Seq<u8>,
    i: int,
    argument: u16,
    kinds: ImportKinds,
) -> Seq<(Seq<Seq<u8>>, Seq<u8>)> {
    match child_in_field(nodes, i, argument) {
        Some(c) => imported(nodes, bytes, c, Seq::empty(), kinds),
        None => Seq::empty(),
    }
}

/// Whether a node of this kind ends the part of a file that holds imports.
pub open spec fn ends_imports(language: Grammar, kind: u16) -> bool {
    ||| kind == kind_number(language, "struct_item"@, true)
    ||| kind == kind_number(language, "impl_item"@, true)
    ||| kind == kind_number(language, "function_item"@, true)
    ||| kind == kind_number(language, "trait_item"@, true)
    ||| kind == kind_number(language, "static_item"@, true)
}

/// The import declarations among the siblings from `c` up to `end` and before
/// the end of the imports.
pub open spec fn top_imports(
    nodes: Seq<SyntaxNode>,
    c: int,
    end: int,
    language: Grammar,
) -> Seq<int>
    decreases nodes.len() - c,
    via top_imports_decreases
{
    if 0 <= c < end <= nodes.len() {
        (if nodes[c].kind_id == kind_number(language, "use_declaration"@, true) {
            seq![c]
        } else {
            Seq::empty()
        }) + (if ends_imports(language, nodes[c].kind_id) {
            Seq::empty()
        } else {
            top_imports(nodes, subtree_end(nodes, c), end, language)
        })
    } else {
        Seq::empty()
    }
}

#[via_fn]
proof fn top_imports_decreases(nodes: Seq<SyntaxNode>, c: int, end: int, language: Grammar) {
    if 0 <= c < end <= nodes.len() {
        lemma_subtree_end(nodes, c);
    }
}

/// The import declarations at the top of a tree.
pub open spec fn rust_imports(nodes: Seq<SyntaxNode>, language: Grammar) -> Seq<int> {
    top_imports(nodes, 1, subtree_end(nodes, 0), language)
}

/// The bytes that separate the names of a path.
pub open spec fn path_separator() -> Seq<u8> {
    seq![0x3au8, 0x3au8]
}

/// Names with the separator between them.
pub open spec fn joined_names(names: Seq<Seq<u8>>) -> Seq<u8>
    decreases names.len(),
{
    if names.len() == 0 {
        Seq::empty()
    } else if names.len() == 1 {
        names[0]
    } else {
        joined_names(names.drop_last()) + path_separator() + names.last()
    }
}

/// Whether a node is a path that is written out without blanks: a node of any kind but
/// that of a scoped identifier, or such a path, the separator and a name, and nothing
/// else.
pub open spec fn is_plain_path(
    nodes: Seq<SyntaxNode>,
    bytes: Seq<u8>,
    i: int,
    kinds: ImportKinds,
) -> bool
    decreases nodes.len() - i,
    via is_plain_path_decreases
{
    &&& 0 <= i < nodes.len()
    &&& nodes[i].kind_id == kinds.scoped_identifier ==> {
        &&& child_in_field(nodes, i, kinds.path) matches Some(path)
        &&& child_in_field(nodes, i, kinds.name) matches Some(name)
        &&& nodes[path].start_byte == nodes[i].start_byte
        &&& nodes[name].start_byte == nodes[path].end_byte + 2
        &&& nodes[name].end_byte == nodes[i].end_byte
        &&& bytes.subrange(nodes[path].end_byte as int, nodes[name].start_byte as int)
            == path_separator()
        &&& nodes[name].kind_id == kinds.identifier
        &&& is_plain_path(nodes, bytes, path, kinds)
    }
}

#[via_fn]
proof fn is_plain_path_decreases(
    nodes: Seq<SyntaxNode>,
    bytes: Seq<u8>,
    i: int,
    kinds: ImportKinds,
) {
    if 0 <= i < nodes.len() {
        lemma_child_in_field(nodes, i, kinds.path);
    }
}

/// No part of a path is lost, whatever its kind: the names of a path, with the separator
/// between them, are the text of the path.
pub proof fn law_path_is_its_names(
    nodes: Seq<SyntaxNode>,
    bytes: Seq<u8>,
    i: int,
    kinds: ImportKinds,
)
    requires
        tree_fits(nodes, bytes),
        valid_utf8(bytes),
        is_plain_path(nodes, bytes, i, kinds),
    ensures
        path_names(nodes, bytes, i, kinds).len() > 0,
        joined_names(path_names(nodes, bytes, i, kinds)) == bytes.subrange(
            nodes[i].start_byte as int,
            nodes[i].end_byte as int,
        ),
        nodes[i].kind_id != kinds.scoped_identifier ==> path_names(nodes, bytes, i, kinds).len()
            == 1,
    decreases nodes.len() - i,
{
    let names = path_names(nodes, bytes, i, kinds);
    assert(nodes[i].start_byte <= nodes[i].end_byte);
    if nodes[i].kind_id == kinds.scoped_identifier {
        let path = child_in_field(nodes, i, kinds.path)->0;
        let name = child_in_field(nodes, i, kinds.name)->0;
        lemma_child_in_field(nodes, i, kinds.path);
        lemma_child_in_field(nodes, i, kinds.name);
        law_path_is_its_names(nodes, bytes, path, kinds);
        let before = path_names(nodes, bytes, path, kinds);
        assert(nodes[path].start_byte <= nodes[path].end_byte);
        assert(nodes[name].start_byte <= nodes[name].end_byte);
        lemma_boundary_in_range(bytes, nodes[i].end_byte as int);
        assert(names.drop_last() =~= before);
        assert(names.last() == node_bytes(bytes, nodes[name]));
        assert(joined_names(names) =~= bytes.subrange(
            nodes[i].start_byte as int,
            nodes[i].end_byte as int,
        )) by {
            let separator = bytes.subrange(
                nodes[path].end_byte as int,
                nodes[name].start_byte as int,
            );
            assert(joined_names(names) == joined_names(before) + separator + names.last());
        }
    }
}

/// A path imports one symbol: its last name, below the names before it. With the
/// separator between them, these are the text of the path.
pub proof fn law_path_imports_its_last_name(
    nodes: Seq<SyntaxNode>,
    bytes: Seq<u8>,
    i: int,
    kinds: ImportKinds,
)
    requires
        tree_fits(nodes, bytes),
        valid_utf8(bytes),
        is_plain_path(nodes, bytes, i, kinds),
        nodes[i].kind_id == kinds.scoped_identifier,
    ensures
        imported(nodes, bytes, i, Seq::empty(), kinds).len() == 1,
        ({
            let (namespace, name) = imported(nodes, bytes, i, Seq::empty(), kinds)[0];
            &&& namespace.len() > 0
            &&& joined_names(namespace.push(name)) == bytes.subrange(
                nodes[i].start_byte as int,
                nodes[i].end_byte as int,
            )
            &&& child_in_field(nodes, i, kinds.name) matches Some(last) && name
                == bytes.subrange(nodes[last].start_byte as int, nodes[last].end_byte as int)
        }),
{
    let path = child_in_field(nodes, i, kinds.path)->0;
    lemma_child_in_field(nodes, i, kinds.path);
    law_path_is_its_names(nodes, bytes, i, kinds);
    law_path_is_its_names(nodes, bytes, path, kinds);
    let (namespace, name) = imported(nodes, bytes, i, Seq::empty(), kinds)[0];
    assert(namespace =~= path_names(nodes, bytes, path, kinds));
    assert(namespace.push(name) =~= path_names(nodes, bytes, i, kinds));
}

/// A name that stands alone imports itself.
pub proof fn law_name_imports_itself(
    nodes: Seq<SyntaxNode>,
    bytes: Seq<u8>,
    i: int,
    namespace: Seq<Seq<u8>>,
    kinds: ImportKinds,
)
    requires
        0 <= i < nodes.len(),
        nodes[i].kind_id == kinds.identifier,
        kinds.identifier != kinds.scoped_identifier,
        kinds.identifier != kinds.scoped_use_list,
        kinds.identifier != kinds.use_list,
    ensures
        imported(nodes, bytes, i, namespace, kinds) == seq![
            (
                namespace,
                bytes.subrange(nodes[i].start_byte as int, nodes[i].end_byte as int),
            ),
        ],
{
}

/// Symbols below a namespace.
pub open spec fn below(
    namespace: Seq<Seq<u8>>,
    symbols: Seq<(Seq<Seq<u8>>, Seq<u8>)>,
) -> Seq<(Seq<Seq<u8>>, Seq<u8>)> {
    symbols.map_values(|symbol: (Seq<Seq<u8>>, Seq<u8>)| (namespace + symbol.0, symbol.1))
}

/// What a node imports below a namespace is what it imports by itself, with that
/// namespace in front.
pub proof fn law_namespace_is_put_in_front(
    nodes: Seq<SyntaxNode>,
    bytes: Seq<u8>,
    i: int,
    namespace: Seq<Seq<u8>>,
    kinds: ImportKinds,
)
    ensures
        imported(nodes, bytes, i, namespace, kinds) == below(
            namespace,
            imported(nodes, bytes, i, Seq::empty(), kinds),
        ),
    decreases nodes.len() - i, 0int,
{
    let alone = imported(nodes, bytes, i, Seq::empty(), kinds);
    let here = imported(nodes, bytes, i, namespace, kinds);
    if i < 0 || i >= nodes.len() {
        assert(here =~= below(namespace, alone));
    } else if nodes[i].kind_id == kinds.scoped_identifier {
        match (child_in_field(nodes, i, kinds.path), child_in_field(nodes, i, kinds.name)) {
            (Some(path), Some(name)) => {
                let names = path_names(nodes, bytes, path, kinds);
                assert(Seq::<Seq<u8>>::empty() + names =~= names);
                assert(here =~= below(namespace, alone));
            },
            _ => {
                assert(here =~= below(namespace, alone));
            },
        }
    } else if nodes[i].kind_id == kinds.scoped_use_list {
        match (child_in_field(nodes, i, kinds.path), child_in_field(nodes, i, kinds.list)) {
            (Some(path), Some(list)) => {
                lemma_child_in_field(nodes, i, kinds.list);
                let names = path_names(nodes, bytes, path, kinds);
                assert(Seq::<Seq<u8>>::empty() + names =~= names);
                law_namespace_is_put_in_front(nodes, bytes, list, namespace + names, kinds);
                law_namespace_is_put_in_front(nodes, bytes, list, names, kinds);
                let inner = imported(nodes, bytes, list, Seq::empty(), kinds);
                assert(below(namespace + names, inner) =~= below(
                    namespace,
                    below(names, inner),
                )) by {
                    assert forall|k: int| 0 <= k < inner.len() implies below(
                        namespace + names,
                        inner,
                    )[k] == below(namespace, below(names, inner))[k] by {
                        assert((namespace + names) + inner[k].0 =~= namespace + (names
                            + inner[k].0));
                    }
                }
            },
            _ => {
                assert(here =~= below(namespace, alone));
            },
        }
    } else if nodes[i].kind_id != kinds.use_list && nodes[i].kind_id == kinds.identifier {
        assert(namespace + Seq::<Seq<u8>>::empty() =~= namespace);
        assert(here =~= below(namespace, alone));
    } else {
        lemma_namespace_among(nodes, bytes, i + 1, subtree_end(nodes, i), namespace, kinds);
    }
}

proof fn lemma_namespace_among(
    nodes: Seq<SyntaxNode>,
    bytes: Seq<u8>,
    c: int,
    end: int,
    namespace: Seq<Seq<u8>>,
    kinds: ImportKinds,
)
    ensures
        imported_among(nodes, bytes, c, end, namespace, kinds) == below(
            namespace,
            imported_among(nodes, bytes, c, end, Seq::empty(), kinds),
        ),
    decreases nodes.len() - c, 1int,
{
    if 0 <= c < end <= nodes.len() {
        lemma_subtree_end(nodes, c);
        lemma_namespace_among(nodes, bytes, subtree_end(nodes, c), end, namespace, kinds);
        law_namespace_is_put_in_front(nodes, bytes, c, namespace, kinds);
    }
    assert(imported_among(nodes, bytes, c, end, namespace, kinds) =~= below(
        namespace,
        imported_among(nodes, bytes, c, end, Seq::empty(), kinds),
    ));
}

/// A list after a path imports what the list does, below the names of the path.
pub proof fn law_list_is_below_its_path(
    nodes: Seq<SyntaxNode>,
    bytes: Seq<u8>,
    i: int,
    kinds: ImportKinds,
    path: int,
    list: int,
)
    requires
        0 <= i < nodes.len(),
        nodes[i].kind_id == kinds.scoped_use_list,
        kinds.scoped_use_list != kinds.scoped_identifier,
        child_in_field(nodes, i, kinds.path) == Some(path),
        child_in_field(nodes, i, kinds.list) == Some(list),
    ensures
        imported(nodes, bytes, i, Seq::empty(), kinds) == below(
            path_names(nodes, bytes, path, kinds),
            imported(nodes, bytes, list, Seq::empty(), kinds),
        ),
{
    let names = path_names(nodes, bytes, path, kinds);
    assert(Seq::<Seq<u8>>::empty() + names =~= names);
    law_namespace_is_put_in_front(nodes, bytes, list, names, kinds);
}

/// A list, and any node that is no path and no name, imports what its named children
/// import: all of it and nothing else.
pub proof fn law_children_import_all(
    nodes: Seq<SyntaxNode>,
    bytes: Seq<u8>,
    i: int,
    kinds: ImportKinds,
    symbol: (Seq<Seq<u8>>, Seq<u8>),
)
    requires
        tree_fits(nodes, bytes),
        0 <= i < nodes.len(),
        nodes[i].kind_id != kinds.scoped_identifier,
        nodes[i].kind_id != kinds.scoped_use_list,
        nodes[i].kind_id == kinds.use_list || nodes[i].kind_id != kinds.identifier,
    ensures
        imported(nodes, bytes, i, Seq::empty(), kinds).contains(symbol) <==> exists|c: int|
            {
                &&& #[trigger] is_child(nodes, i, c)
                &&& nodes[c].named
                &&& imported(nodes, bytes, c, Seq::empty(), kinds).contains(symbol)
            },
{
    lemma_children(nodes, bytes, i, i + 1);
    lemma_among_children(nodes, bytes, i, i + 1, kinds, symbol);
}

proof fn lemma_among_children(
    nodes: Seq<SyntaxNode>,
    bytes: Seq<u8>,
    i: int,
    c: int,
    kinds: ImportKinds,
    symbol: (Seq<Seq<u8>>, Seq<u8>),
)
    requires
        tree_fits(nodes, bytes),
        0 <= i < c <= subtree_end(nodes, i) <= nodes.len(),
        c < subtree_end(nodes, i) ==> is_child(nodes, i, c),
        forall|d: int| #[trigger] is_child(nodes, i, d) ==> i < d < subtree_end(nodes, i),
    ensures
        imported_among(nodes, bytes, c, subtree_end(nodes, i), Seq::empty(), kinds).contains(
            symbol,
        ) <==> exists|d: int|
            {
                &&& c <= d
                &&& #[trigger] is_child(nodes, i, d)
                &&& nodes[d].named
                &&& imported(nodes, bytes, d, Seq::empty(), kinds).contains(symbol)
            },
    decreases nodes.len() - c,
{
    let end = subtree_end(nodes, i);
    let all = imported_among(nodes, bytes, c, end, Seq::empty(), kinds);
    if c < end {
        lemma_children(nodes, bytes, i, c);
        let next = subtree_end(nodes, c);
        lemma_among_children(nodes, bytes, i, next, kinds, symbol);
        let own = if nodes[c].named {
            imported(nodes, bytes, c, Seq::empty(), kinds)
        } else {
            Seq::empty()
        };
        let rest = imported_among(nodes, bytes, next, end, Seq::empty(), kinds);
        assert(all == own + rest);
        if all.contains(symbol) {
            let k = choose|k: int| 0 <= k < all.len() && all[k] == symbol;
            if k < own.len() {
                assert(own[k] == symbol);
                assert(own.contains(symbol));
                assert(is_child(nodes, i, c));
            } else {
                assert(rest[k - own.len()] == symbol);
                assert(rest.contains(symbol));
            }
        }
        if exists|d: int|
            {
                &&& c <= d
                &&& #[trigger] is_child(nodes, i, d)
                &&& nodes[d].named
                &&& imported(nodes, bytes, d, Seq::empty(), kinds).contains(symbol)
            } {
            let d = choose|d: int|
                {
                    &&& c <= d
                    &&& #[trigger] is_child(nodes, i, d)
                    &&& nodes[d].named
                    &&& imported(nodes, bytes, d, Seq::empty(), kinds).contains(symbol)
                };
            if d == c {
                let k = choose|k: int| 0 <= k < own.len() && own[k] == symbol;
                assert(all[k] == symbol);
            } else {
                assert(next <= d);
                assert(rest.contains(symbol));
                let k = choose|k: int| 0 <= k < rest.len() && rest[k] == symbol;
                assert(all[own.len() + k] == symbol);
            }
        }
    } else {
        assert(all.len() == 0);
    }
}

/// The import declarations of a file are the children of the root of that kind, up to
/// the first that declares a structure, an implementation, a function, a trait or a
/// static.
pub proof fn law_which_imports_are_found(
    nodes: Seq<SyntaxNode>,
    bytes: Seq<u8>,
    language: Grammar,
)
    requires
        tree_fits(nodes, bytes),
    ensures
        forall|m: int| #[trigger]
            rust_imports(nodes, language).contains(m) <==> {
                &&& is_child(nodes, 0, m)
                &&& nodes[m].kind_id == kind_number(language, "use_declaration"@, true)
                &&& forall|d: int|
                    d < m && #[trigger] is_child(nodes, 0, d) ==> {
                        &&& nodes[d].kind_id != kind_number(language, "struct_item"@, true)
                        &&& nodes[d].kind_id != kind_number(language, "impl_item"@, true)
                        &&& nodes[d].kind_id != kind_number(language, "function_item"@, true)
                        &&& nodes[d].kind_id != kind_number(language, "trait_item"@, true)
                        &&& nodes[d].kind_id != kind_number(language, "static_item"@, true)
                    }
            },
        forall|j: int, k: int|
            0 <= j < k < rust_imports(nodes, language).len() ==> #[trigger] rust_imports(
                nodes,
                language,
            )[j] < #[trigger] rust_imports(nodes, language)[k],
{
    lemma_children(nodes, bytes, 0, 1);
    lemma_top_imports(nodes, bytes, 1, language);
    let found = rust_imports(nodes, language);
    assert forall|m: int| #[trigger] found.contains(m) <==> {
        &&& is_child(nodes, 0, m)
        &&& nodes[m].kind_id == kind_number(language, "use_declaration"@, true)
        &&& forall|d: int|
            d < m && #[trigger] is_child(nodes, 0, d) ==> !ends_imports(language, nodes[d].kind_id)
    } by {
        if is_child(nodes, 0, m) {
            assert(1 <= m);
        }
    }
}

proof fn lemma_top_imports(nodes: Seq<SyntaxNode>, bytes: Seq<u8>, c: int, language: Grammar)
    requires
        tree_fits(nodes, bytes),
        0 < c <= subtree_end(nodes, 0) <= nodes.len(),
        c < subtree_end(nodes, 0) ==> is_child(nodes, 0, c),
        forall|d: int| #[trigger] is_child(nodes, 0, d) ==> 0 < d < subtree_end(nodes, 0),
    ensures
        ({
            let found = top_imports(nodes, c, subtree_end(nodes, 0), language);
            &&& forall|m: int| #[trigger]
                found.contains(m) <==> {
                    &&& c <= m
                    &&& is_child(nodes, 0, m)
                    &&& nodes[m].kind_id == kind_number(language, "use_declaration"@, true)
                    &&& forall|d: int|
                        c <= d < m && #[trigger] is_child(nodes, 0, d) ==> !ends_imports(
                            language,
                            nodes[d].kind_id,
                        )
                }
            &&& forall|j: int, k: int|
                0 <= j < k < found.len() ==> #[trigger] found[j] < #[trigger] found[k]
        }),
    decreases nodes.len() - c,
{
    let end = subtree_end(nodes, 0);
    let found = top_imports(nodes, c, end, language);
    let use_kind = kind_number(language, "use_declaration"@, true);
    if c < end {
        lemma_children(nodes, bytes, 0, c);
        let next = subtree_end(nodes, c);
        lemma_top_imports(nodes, bytes, next, language);
        let own = if nodes[c].kind_id == use_kind {
            seq![c]
        } else {
            Seq::empty()
        };
        let ends = ends_imports(language, nodes[c].kind_id);
        let rest = if ends {
            Seq::empty()
        } else {
            top_imports(nodes, next, end, language)
        };
        assert(found == own + rest);
        assert forall|m: int| #[trigger] found.contains(m) <==> {
            &&& c <= m
            &&& is_child(nodes, 0, m)
            &&& nodes[m].kind_id == use_kind
            &&& forall|d: int|
                c <= d < m && #[trigger] is_child(nodes, 0, d) ==> !ends_imports(
                    language,
                    nodes[d].kind_id,
                )
        } by {
            if found.contains(m) {
                let k = choose|k: int| 0 <= k < found.len() && found[k] == m;
                if k < own.len() {
                    assert(m == c);
                } else {
                    assert(rest[k - own.len()] == m);
                    assert(rest.contains(m));
                    assert(next <= m);
                }
            }
            if c <= m && is_child(nodes, 0, m) && nodes[m].kind_id == use_kind && (forall|d: int|
                c <= d < m && #[trigger] is_child(nodes, 0, d) ==> !ends_imports(
                    language,
                    nodes[d].kind_id,
                )) {
                if m == c {
                    assert(found[0] == m);
                } else {
                    assert(is_child(nodes, 0, c));
                    assert(next <= m);
                    assert(rest.contains(m));
                    let k = choose|k: int| 0 <= k < rest.len() && rest[k] == m;
                    assert(found[own.len() + k] == m);
                }
            }
        }
        assert forall|j: int, k: int| 0 <= j < k < found.len() implies #[trigger] found[j]
            < #[trigger] found[k] by {
            if j < own.len() {
                assert(rest[k - own.len()] == found[k]);
                assert(rest.contains(found[k]));
            } else {
                assert(rest[j - own.len()] == found[j] && rest[k - own.len()] == found[k]);
            }
        }
    } else {
        assert(found.len() == 0);
    }
}

impl CollectImportsInput<'_> {
    /// The imports of a file are there exactly if it has an import declaration. Their
    /// range reaches from the first declaration to the last, and they hold every symbol
    /// of every declaration, and no other.
    pub proof fn law_all_declarations_count(&self, r: Option<Imports>, symbol: (
        Seq<Seq<u8>>,
        Seq<u8>,
    ))
        requires
            self.fits(),
            self.describes(r),
        ensures
            ({
                let nodes = self.tree.nodes@;
                let language = self.language.ts_language;
                let found = rust_imports(nodes, language);
                let argument = field_number(language, "argument"@);
                &&& r is Some <==> found.len() > 0
                &&& r matches Some(imports) ==> {
                    &&& exists|m: int|
                        #[trigger] found.contains(m) && imports.range.start == nodes[m].start_byte
                    &&& exists|m: int|
                        #[trigger] found.contains(m) && imports.range.end == nodes[m].end_byte
                    &&& forall|m: int| #[trigger]
                        found.contains(m) ==> imports.range.start <= nodes[m].start_byte
                            && nodes[m].end_byte <= imports.range.end
                    &&& symbol_bytes(imports.symbols@).contains(symbol) <==> exists|m: int|
                        {
                            &&& #[trigger] found.contains(m)
                            &&& child_in_field(nodes, m, argument) matches Some(c) && imported(
                                nodes,
                                self.source.spec_bytes(),
                                c,
                                Seq::empty(),
                                import_kinds(language),
                            ).contains(symbol)
                        }
                }
            }),
    {
        let nodes = self.tree.nodes@;
        let language = self.language.ts_language;
        let found = rust_imports(nodes, language);
        law_which_imports_are_found(nodes, self.source.spec_bytes(), language);
        if let Some(imports) = r {
            assert(found.contains(found[0]));
            assert(found.contains(found[found.len() - 1]));
            self.lemma_all_declared(found, symbol);
            assert forall|m: int| #[trigger] found.contains(m) implies imports.range.start
                <= nodes[m].start_byte && nodes[m].end_byte <= imports.range.end by {
                let k = choose|k: int| 0 <= k < found.len() && found[k] == m;
                assert(found.contains(found[0]));
                let last = found[found.len() - 1];
                if k > 0 {
                    assert(found[0] < found[k]);
                }
                assert(is_child(nodes, 0, m) && is_child(nodes, 0, last));
                if m < last {
                    lemma_children_in_order(nodes, self.source.spec_bytes(), m, last);
                } else if k < found.len() - 1 {
                    assert(found[k] < found[found.len() - 1]);
                }
            }
        }
    }

    proof fn lemma_all_declared(&self, list: Seq<int>, symbol: (Seq<Seq<u8>>, Seq<u8>))
        ensures
            self.all_declared(list).contains(symbol) <==> exists|m: int|
                {
                    &&& #[trigger] list.contains(m)
                    &&& child_in_field(
                        self.tree.nodes@,
                        m,
                        field_number(self.language.ts_language, "argument"@),
                    ) matches Some(c) && imported(
                        self.tree.nodes@,
                        self.source.spec_bytes(),
                        c,
                        Seq::empty(),
                        import_kinds(self.language.ts_language),
                    ).contains(symbol)
                },
        decreases list.len(),
    {
        let nodes = self.tree.nodes@;
        let bytes = self.source.spec_bytes();
        let argument = field_number(self.language.ts_language, "argument"@);
        let kinds = import_kinds(self.language.ts_language);
        if list.len() > 0 {
            let shorter = list.drop_last();
            self.lemma_all_declared(shorter, symbol);
            let before = self.all_declared(shorter);
            let own = declared(nodes, bytes, list.last(), argument, kinds);
            let all = self.all_declared(list);
            assert(all == before + own);
            if all.contains(symbol) {
                let k = choose|k: int| 0 <= k < all.len() && all[k] == symbol;
                if k < before.len() {
                    assert(before[k] == symbol);
                    let m = choose|m: int|
                        {
                            &&& #[trigger] shorter.contains(m)
                            &&& child_in_field(nodes, m, argument) matches Some(c) && imported(
                                nodes,
                                bytes,
                                c,
                                Seq::empty(),
                                kinds,
                            ).contains(symbol)
                        };
                    let x = choose|x: int| 0 <= x < shorter.len() && shorter[x] == m;
                    assert(list[x] == m);
                    assert(list.contains(m));
                } else {
                    assert(own[k - before.len()] == symbol);
                    assert(list[list.len() - 1] == list.last());
                    assert(list.contains(list.last()));
                }
            }
            if exists|m: int|
                {
                    &&& #[trigger] list.contains(m)
                    &&& child_in_field(nodes, m, argument) matches Some(c) && imported(
                        nodes,
                        bytes,
                        c,
                        Seq::empty(),
                        kinds,
                    ).contains(symbol)
                } {
                let m = choose|m: int|
                    {
                        &&& #[trigger] list.contains(m)
                        &&& child_in_field(nodes, m, argument) matches Some(c) && imported(
                            nodes,
                            bytes,
                            c,
                            Seq::empty(),
                            kinds,
                        ).contains(symbol)
                    };
                let x = choose|x: int| 0 <= x < list.len() && list[x] == m;
                if x < shorter.len() {
                    assert(shorter[x] == m);
                    assert(shorter.contains(m));
                    let k = choose|k: int| 0 <= k < before.len() && before[k] == symbol;
                    assert(all[k] == symbol);
                } else {
                    let k = choose|k: int| 0 <= k < own.len() && own[k] == symbol;
                    assert(all[before.len() + k] == symbol);
                }
            }
        }
    }
}

/// Of two children of the root the earlier ends no later.
proof fn lemma_children_in_order(nodes: Seq<SyntaxNode>, bytes: Seq<u8>, a: int, b: int)
    requires
        tree_fits(nodes, bytes),
        is_child(nodes, 0, a),
        is_child(nodes, 0, b),
        a < b,
    ensures
        nodes[a].end_byte <= nodes[b].end_byte,
    decreases b - a,
{
    lemma_children(nodes, bytes, 0, a);
    let next = subtree_end(nodes, a);
    assert(next <= b);
    law_siblings_are_neighbours(nodes, a, next);
    assert(follows_sibling(nodes, next)) by {
        assert(next < nodes.len());
    }
    assert(is_child(nodes, 0, next));
    assert(next_sibling(nodes, a) == Some(next));
    assert(nodes[next].start_byte <= nodes[next].end_byte);
    if next < b {
        lemma_children_in_order(nodes, bytes, next, b);
    }
}

/// The named children of a node from `c` on, in the order of the text, and that what they
/// import, one after another, is what the node imports from there on.
proof fn lemma_children_one_after_another(
    nodes: Seq<SyntaxNode>,
    bytes: Seq<u8>,
    i: int,
    c: int,
    kinds: ImportKinds,
) -> (children: Seq<int>)
    requires
        tree_fits(nodes, bytes),
        0 <= i < c <= subtree_end(nodes, i) <= nodes.len(),
        c < subtree_end(nodes, i) ==> is_child(nodes, i, c),
        forall|d: int| #[trigger] is_child(nodes, i, d) ==> i < d < subtree_end(nodes, i),
    ensures
        forall|d: int| #[trigger]
            children.contains(d) <==> c <= d && is_child(nodes, i, d) && nodes[d].named,
        forall|j: int, k: int| 0 <= j < k < children.len() ==> children[j] < children[k],
        imported_among(nodes, bytes, c, subtree_end(nodes, i), Seq::empty(), kinds)
            == children.map_values(
            |d: int| imported(nodes, bytes, d, Seq::empty(), kinds),
        ).flatten(),
    decreases nodes.len() - c,
{
    let end = subtree_end(nodes, i);
    let symbols = |d: int| imported(nodes, bytes, d, Seq::empty(), kinds);
    if c < end {
        lemma_children(nodes, bytes, i, c);
        let next = subtree_end(nodes, c);
        let rest = lemma_children_one_after_another(nodes, bytes, i, next, kinds);
        if nodes[c].named {
            let children = seq![c] + rest;
            assert forall|d: int| #[trigger] children.contains(d) <==> c <= d && is_child(
                nodes,
                i,
                d,
            ) && nodes[d].named by {
                if children.contains(d) {
                    let k = choose|k: int| 0 <= k < children.len() && children[k] == d;
                    if k > 0 {
                        assert(rest[k - 1] == d);
                        assert(rest.contains(d));
                    }
                }
                if c <= d && is_child(nodes, i, d) && nodes[d].named {
                    if d == c {
                        assert(children[0] == d);
                    } else {
                        assert(next <= d);
                        assert(rest.contains(d));
                        let k = choose|k: int| 0 <= k < rest.len() && rest[k] == d;
                        assert(children[k + 1] == d);
                    }
                }
            }
            assert forall|j: int, k: int| 0 <= j < k < children.len() implies children[j]
                < children[k] by {
                assert(rest.contains(rest[k - 1]));
                assert(children[k] == rest[k - 1]);
                if j > 0 {
                    assert(children[j] == rest[j - 1]);
                }
            }
            let lists = children.map_values(symbols);
            assert(lists.first() == symbols(c));
            assert(lists.drop_first() =~= rest.map_values(symbols));
            children
        } else {
            assert forall|d: int| #[trigger] rest.contains(d) <==> c <= d && is_child(
                nodes,
                i,
                d,
            ) && nodes[d].named by {
                if c <= d && is_child(nodes, i, d) && nodes[d].named {
                    assert(next <= d);
                }
            }
            assert(imported_among(nodes, bytes, c, end, Seq::empty(), kinds)
                =~= imported_among(nodes, bytes, next, end, Seq::empty(), kinds));
            rest
        }
    } else {
        Seq::empty()
    }
}

/// Whether a list holds the named children of a node, in the order of the text.
pub open spec fn lists_named_children(
    nodes: Seq<SyntaxNode>,
    i: int,
    children: Seq<int>,
) -> bool {
    &&& forall|d: int| #[trigger]
        children.contains(d) <==> is_child(nodes, i, d) && nodes[d].named
    &&& forall|j: int, k: int| 0 <= j < k < children.len() ==> children[j] < children[k]
}

/// What a list, or any node that is no path and no name, imports is what its named
/// children import, one after another in the order of the text, each once.
pub proof fn law_children_one_after_another(
    nodes: Seq<SyntaxNode>,
    bytes: Seq<u8>,
    i: int,
    kinds: ImportKinds,
)
    requires
        tree_fits(nodes, bytes),
        0 <= i < nodes.len(),
        nodes[i].kind_id != kinds.scoped_identifier,
        nodes[i].kind_id != kinds.scoped_use_list,
        nodes[i].kind_id == kinds.use_list || nodes[i].kind_id != kinds.identifier,
    ensures
        exists|children: Seq<int>|
            {
                &&& #[trigger] lists_named_children(nodes, i, children)
                &&& imported(nodes, bytes, i, Seq::empty(), kinds) == children.map_values(
                    |d: int| imported(nodes, bytes, d, Seq::empty(), kinds),
                ).flatten()
            },
{
    lemma_children(nodes, bytes, i, i + 1);
    let children = lemma_children_one_after_another(nodes, bytes, i, i + 1, kinds);
    assert(lists_named_children(nodes, i, children));
    assert(imported(nodes, bytes, i, Seq::empty(), kinds) == children.map_values(
        |d: int| imported(nodes, bytes, d, Seq::empty(), kinds),
    ).flatten());
}

impl CollectImportsInput<'_> {
    /// What the argument of a declaration imports.
    pub open spec fn argument_symbols(&self, m: int) -> Seq<(Seq<Seq<u8>>, Seq<u8>)> {
        match child_in_field(
            self.tree.nodes@,
            m,
            field_number(self.language.ts_language, "argument"@),
        ) {
            Some(c) => imported(
                self.tree.nodes@,
                self.source.spec_bytes(),
                c,
                Seq::empty(),
                import_kinds(self.language.ts_language),
            ),
            None => Seq::empty(),
        }
    }

    /// The symbols of a file are those of its declarations, one after another.
    pub proof fn law_declarations_one_after_another(&self, imports: Imports)
        requires
            self.describes(Some(imports)),
        ensures
            symbol_bytes(imports.symbols@) == rust_imports(
                self.tree.nodes@,
                self.language.ts_language,
            ).map_values(|m: int| self.argument_symbols(m)).flatten(),
    {
        let found = rust_imports(self.tree.nodes@, self.language.ts_language);
        self.lemma_all_declared_flat(found);
        found.map_values(
            |m: int| self.argument_symbols(m),
        ).lemma_flatten_and_flatten_alt_are_equivalent();
    }

    proof fn lemma_all_declared_flat(&self, list: Seq<int>)
        ensures
            self.all_declared(list) == list.map_values(
                |m: int| self.argument_symbols(m),
            ).flatten_alt(),
        decreases list.len(),
    {
        let symbols = |m: int| self.argument_symbols(m);
        if list.len() > 0 {
            self.lemma_all_declared_flat(list.drop_last());
            assert(list.map_values(symbols).drop_last() =~= list.drop_last().map_values(symbols));
            assert(list.map_values(symbols).last() == symbols(list.last()));
        }
    }
}

} // verus!
