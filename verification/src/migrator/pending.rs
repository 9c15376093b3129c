//! Migrations that are not released yet.
use crate::migrator::patterns::{
    SETTINGS_ASSISTANT_INLINE_ALTERNATIVE_MODEL_NAMES, SETTINGS_ASSISTANT_MODEL_NAMES,
    SETTINGS_LANGUAGE_MODELS_AVAILABLE_MODEL_NAMES,
};
use crate::text::{slice, str_eq};
use crate::zeta_context::zed_code::{find_index, first_index, texts};
use std::ops::Range;
use vstd::prelude::*;
use vstd::string::*;
use vstd::utf8::*;

verus! {

/// A node that a query captured.
#[derive(Clone, Copy, Debug, PartialEq, Eq, Structural)]
pub struct CapturedNode {
    /// The number of the capture in the query.
    pub index: u32,
    pub start_byte: usize,
    pub end_byte: usize,
}

/// The new name of a model that was renamed.
pub open spec fn renamed(model: Seq<char>) -> Option<Seq<char>> {
    if model == "gemini-2.0-flash-thinking-exp"@ {
        Some("gemini-2.5-flash-preview-04-17"@)
    } else if model == "gemini-2.0-pro-exp"@ {
        Some("gemini-2.5-pro-preview-03-25"@)
    } else if model == "gemini-2.0-flash-lite-preview"@ {
        Some("gemini-2.0-flash-lite"@)
    } else {
        None
    }
}

/// The first node from `k` on that has a capture's number.
pub open spec fn node_from(nodes: Seq<CapturedNode>, index: u32, k: int) -> Option<int>
    decreases nodes.len() - k,
{
    if k >= nodes.len() {
        None
    } else if nodes[k].index == index {
        Some(k)
    } else {
        node_from(nodes, index, k + 1)
    }
}

/// Whether a node covers a part of the text.
pub open spec fn node_fits(node: CapturedNode, bytes: Seq<u8>) -> bool {
    &&& node.start_byte <= node.end_byte
    &&& is_char_boundary(bytes, node.start_byte as int)
    &&& is_char_boundary(bytes, node.end_byte as int)
}

/// The model name that a match captures, if there is one in the text.
pub open spec fn captured_model(
    bytes: Seq<u8>,
    nodes: Seq<CapturedNode>,
    model_name: Option<u32>,
) -> Option<CapturedNode> {
    match model_name {
        Some(index) => match node_from(nodes, index, 0) {
            Some(k) => if node_fits(nodes[k], bytes) {
                Some(nodes[k])
            } else {
                None
            },
            None => None,
        },
        None => None,
    }
}

/// The queries whose matches are migrated by `migrate_google_model_names`, in their
/// order.
pub fn settings_patterns() -> (patterns: Vec<&'static str>)
    ensures
        patterns@.len() == 3,
        patterns@[0]@ == SETTINGS_ASSISTANT_MODEL_NAMES@,
        patterns@[1]@ == SETTINGS_ASSISTANT_INLINE_ALTERNATIVE_MODEL_NAMES@,
        patterns@[2]@ == SETTINGS_LANGUAGE_MODELS_AVAILABLE_MODEL_NAMES@,
{
    vec![
        SETTINGS_ASSISTANT_MODEL_NAMES,
        SETTINGS_ASSISTANT_INLINE_ALTERNATIVE_MODEL_NAMES,
        SETTINGS_LANGUAGE_MODELS_AVAILABLE_MODEL_NAMES,
    ]
}

/// The number of the capture that holds the name of a model, given the names of a
/// query's captures.
pub fn model_name_capture(capture_names: &Vec<String>) -> (r: Option<u32>)
    ensures
        r == first_index(texts(capture_names@), "model_name"@, 0),
{
    find_index(capture_names, "model_name")
}

/// The edit that gives a renamed model its new name. `nodes` are what a match of a
/// query captures, and `capture_names` the names of the query's captures.
pub fn migrate_google_model_names(
    contents: &str,
    nodes: &Vec<CapturedNode>,
    capture_names: &Vec<String>,
) -> (r: Option<(Range<usize>, String)>)
    ensures
        match captured_model(
            contents.spec_bytes(),
            nodes@,
            first_index(texts(capture_names@), "model_name"@, 0),
        ) {
            Some(node) => {
                let text = decode_utf8(
                    contents.spec_bytes().subrange(node.start_byte as int, node.end_byte as int),
                );
                match renamed(text) {
                    Some(new_name) => {
                        &&& r matches Some((range, name))
                        &&& range.start == node.start_byte
                        &&& range.end == node.end_byte
                        &&& name@ == new_name
                    },
                    None => r is None,
                }
            },
            None => r is None,
        },
{
    let index: u32 = match model_name_capture(capture_names) {
        Some(index) => index,
        None => {
            return None;
        },
    };
    let mut k: usize = 0;
    while k < nodes.len() && nodes[k].index != index
        invariant
            k <= nodes@.len(),
            node_from(nodes@, index, 0) == node_from(nodes@, index, k as int),
        decreases nodes@.len() - k,
    {
        k = k + 1;
    }
    if k == nodes.len() {
        return None;
    }
    let node = nodes[k];
    if node.start_byte > node.end_byte || !contents.is_char_boundary(node.start_byte)
        || !contents.is_char_boundary(node.end_byte) {
        return None;
    }
    let model = slice(contents, node.start_byte, node.end_byte);
    proof {
        encode_utf8_decode_utf8(model@);
    }
    let range = node.start_byte..node.end_byte;
    if str_eq(model, "gemini-2.0-flash-thinking-exp") {
        Some((range, "gemini-2.5-flash-preview-04-17".to_owned()))
    } else if str_eq(model, "gemini-2.0-pro-exp") {
        Some((range, "gemini-2.5-pro-preview-03-25".to_owned()))
    } else if str_eq(model, "gemini-2.0-flash-lite-preview") {
        Some((range, "gemini-2.0-flash-lite".to_owned()))
    } else {
        None
    }
}

/// A model that was renamed is not renamed again.
pub proof fn law_migration_settles(model: Seq<char>)
    ensures
        renamed(model) matches Some(new_name) ==> renamed(new_name) is None,
{
    reveal_strlit("gemini-2.0-flash-thinking-exp");
    reveal_strlit("gemini-2.5-flash-preview-04-17");
    reveal_strlit("gemini-2.0-pro-exp");
    reveal_strlit("gemini-2.5-pro-preview-03-25");
    reveal_strlit("gemini-2.0-flash-lite-preview");
    reveal_strlit("gemini-2.0-flash-lite");
    let a = "gemini-2.5-flash-preview-04-17"@;
    let b = "gemini-2.5-pro-preview-03-25"@;
    let c = "gemini-2.0-flash-lite"@;
    assert(a.len() == 30 && b.len() == 28 && c.len() == 21);
    assert("gemini-2.0-flash-thinking-exp"@.len() == 29);
    assert("gemini-2.0-pro-exp"@.len() == 18);
    assert("gemini-2.0-flash-lite-preview"@.len() == 29);
}

/// The captured node is the first one with the capture's number, and there is none only
/// where no node has it.
pub proof fn law_first_captured_node(nodes: Seq<CapturedNode>, index: u32, from: int)
    requires
        0 <= from,
    ensures
        match node_from(nodes, index, from) {
            Some(k) => {
                &&& from <= k < nodes.len()
                &&& nodes[k].index == index
                &&& forall|j: int| from <= j < k ==> (#[trigger] nodes[j]).index != index
            },
            None => forall|j: int|
                from <= j < nodes.len() ==> (#[trigger] nodes[j]).index != index,
        },
    decreases nodes.len() - from,
{
    if from < nodes.len() {
        law_first_captured_node(nodes, index, from + 1);
    }
}

/// The model name that is migrated is captured under its number and lies in the text.
pub proof fn law_captured_model(bytes: Seq<u8>, nodes: Seq<CapturedNode>, model_name: Option<u32>)
    ensures
        captured_model(bytes, nodes, model_name) matches Some(node) ==> {
            &&& Some(node.index) == model_name
            &&& nodes.contains(node)
            &&& node.start_byte <= node.end_byte
            &&& is_char_boundary(bytes, node.start_byte as int)
            &&& is_char_boundary(bytes, node.end_byte as int)
        },
        model_name is None ==> captured_model(bytes, nodes, model_name) is None,
{
    if let Some(index) = model_name {
        law_first_captured_node(nodes, index, 0);
    }
}

/// Three models were renamed, each to its successor, and no other.
pub proof fn law_renamed_models(model: Seq<char>)
    ensures
        model == "gemini-2.0-flash-thinking-exp"@ ==> renamed(model) == Some(
            "gemini-2.5-flash-preview-04-17"@,
        ),
        model == "gemini-2.0-pro-exp"@ ==> renamed(model) == Some("gemini-2.5-pro-preview-03-25"@),
        model == "gemini-2.0-flash-lite-preview"@ ==> renamed(model) == Some(
            "gemini-2.0-flash-lite"@,
        ),
        renamed(model) is Some ==> model == "gemini-2.0-flash-thinking-exp"@ || model
            == "gemini-2.0-pro-exp"@ || model == "gemini-2.0-flash-lite-preview"@,
{
    reveal_strlit("gemini-2.0-flash-thinking-exp");
    reveal_strlit("gemini-2.0-pro-exp");
    reveal_strlit("gemini-2.0-flash-lite-preview");
    assert("gemini-2.0-flash-thinking-exp"@[17] == 't');
    assert("gemini-2.0-flash-lite-preview"@[17] == 'l');
    assert("gemini-2.0-pro-exp"@.len() == 18);
}

} // verus!
