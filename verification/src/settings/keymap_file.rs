//! Key bindings of a keymap file.
use crate::settings::settings_diagnostics::{
    debug_quoted, is_report, quote, SettingsDiagnostic, SettingsPathRef,
};
use std::ops::Range;
use vstd::prelude::*;
use vstd::string::*;

verus! {

/// How many diagnostics of a keymap are described.
pub const DIAGNOSTICS_LIMIT: usize = 10;

/// A member of an array in JSON: the text of a string, and the JSON itself.
#[derive(Debug)]
pub struct KeymapItem {
    pub string: Option<String>,
    pub json: String,
}

/// What a key is bound to.
#[derive(Debug)]
pub enum KeymapAction {
    Null,
    Name(String),
    Array(Vec<KeymapItem>),
    /// Any other JSON.
    Other(String),
}

/// A text with its place in the file.
#[derive(Debug)]
pub struct SpannedText {
    pub text: String,
    pub range: Range<usize>,
}

/// A key binding with the place of its action in the file.
#[derive(Debug)]
pub struct KeymapBinding {
    pub keystrokes: String,
    pub action: KeymapAction,
    pub action_range: Range<usize>,
}

/// Key bindings that hold in a context.
#[derive(Debug)]
pub struct KeymapBlock {
    pub context: Option<SpannedText>,
    pub use_key_equivalents: Option<bool>,
    pub bindings: Vec<KeymapBinding>,
}

/// The blocks of a keymap file.
#[derive(Debug)]
pub struct KeymapFile(pub Vec<KeymapBlock>);

/// The JSON of the first `n` items, separated by commas.
pub open spec fn items_text(items: Seq<KeymapItem>, n: nat) -> Seq<char>
    decreases n,
{
    if n == 0 {
        Seq::empty()
    } else if n == 1 {
        items[0].json@
    } else {
        items_text(items, (n - 1) as nat) + ", "@ + items[n - 1].json@
    }
}

impl KeymapAction {
    /// The action in words.
    pub open spec fn displayed(&self) -> Seq<char> {
        match self {
            KeymapAction::Null => "null"@,
            KeymapAction::Name(name) => name@,
            KeymapAction::Array(items) => items_text(items@, items@.len()),
            KeymapAction::Other(json) => json@,
        }
    }

    pub fn to_string(&self) -> (s: String)
        ensures
            s@ == self.displayed(),
    {
        match self {
            KeymapAction::Null => "null".to_owned(),
            KeymapAction::Name(name) => name.clone(),
            KeymapAction::Array(items) => {
                let mut s = String::new();
                let mut k: usize = 0;
                while k < items.len()
                    invariant
                        k <= items@.len(),
                        s@ == items_text(items@, k as nat),
                    decreases items@.len() - k,
                {
                    if k > 0 {
                        s.append(", ");
                    }
                    let ghost before = s@;
                    s.append(items[k].json.as_str());
                    assert(k == 0 ==> s@ =~= items@[0].json@);
                    k = k + 1;
                }
                s
            },
            KeymapAction::Other(json) => json.clone(),
        }
    }
}

impl KeymapBlock {
    /// Whether keys are translated to their equivalents on the keyboard.
    pub fn translates_keys(&self) -> (r: bool)
        ensures
            r == (self.use_key_equivalents == Some(true)),
    {
        match self.use_key_equivalents {
            Some(translate) => translate,
            None => false,
        }
    }

    pub fn bindings(&self) -> (r: &Vec<KeymapBinding>)
        ensures
            *r == self.bindings,
    {
        &self.bindings
    }
}

/// What to build for an action.
#[derive(Debug)]
pub enum ActionRequest {
    /// The key does nothing.
    NoAction,
    /// The action of a name.
    Named(String),
    /// The action of a name, with the second member of the array as its data.
    NamedWithData(String),
}

/// What the messages on a binding start with.
pub open spec fn error_prefix(context: Option<Seq<char>>, keystrokes: Seq<char>) -> Seq<char> {
    "Invalid binding for \""@ + keystrokes + "\" in context \""@ + (match context {
        Some(context) => "Some("@ + debug_quoted(context) + ")"@,
        None => "None"@,
    }) + "\""@
}

/// What an action of the wrong shape is answered with.
pub open spec fn expected_shape() -> Seq<char> {
    "Expected action to be a string  or a two-element array of [string, value]"@
}

/// An optional text as characters.
pub open spec fn context_text(context: Option<&str>) -> Option<Seq<char>> {
    match context {
        Some(context) => Some(context@),
        None => None,
    }
}

/// The diagnostic for a binding that could not be made.
pub fn binding_diagnostic(
    context: Option<&str>,
    keystrokes: &str,
    range: Range<usize>,
    error: &str,
) -> (d: SettingsDiagnostic)
    ensures
        d.range == range,
        d.message@ == error_prefix(context_text(context), keystrokes@) + ": "@ + error@,
{
    let mut message = "Invalid binding for \"".to_owned();
    message.append(keystrokes);
    message.append("\" in context \"");
    let ghost head = message@;
    match context {
        Some(context) => {
            message.append("Some(");
            message.append(quote(context).as_str());
            message.append(")");
            assert(message@ =~= head + ("Some("@ + debug_quoted(context@) + ")"@));
        },
        None => {
            message.append("None");
        },
    }
    message.append("\"");
    message.append(": ");
    message.append(error);
    SettingsDiagnostic { range, message }
}

/// What an action asks for: a name, a name with data, or nothing. Any other
/// shape is refused.
pub open spec fn requested(action: KeymapAction) -> Option<ActionRequest> {
    match action {
        KeymapAction::Null => Some(ActionRequest::NoAction),
        KeymapAction::Name(name) => Some(ActionRequest::Named(name)),
        KeymapAction::Array(items) => if items@.len() == 2 && items@[0].string is Some {
            Some(ActionRequest::NamedWithData(items@[0].string->0))
        } else {
            None
        },
        KeymapAction::Other(_) => None,
    }
}

/// Reads what a binding asks for.
pub fn build_key_binding(context: Option<&str>, binding: &KeymapBinding) -> (r: Result<
    ActionRequest,
    SettingsDiagnostic,
>)
    ensures
        match r {
            Ok(request) => requested(binding.action) == Some(request),
            Err(d) => {
                &&& requested(binding.action) is None
                &&& d.range == binding.action_range
                &&& d.message@ == error_prefix(context_text(context), binding.keystrokes@) + ": "@
                    + expected_shape()
            },
        },
{
    match &binding.action {
        KeymapAction::Null => {
            return Ok(ActionRequest::NoAction);
        },
        KeymapAction::Name(name) => {
            return Ok(ActionRequest::Named(name.clone()));
        },
        KeymapAction::Array(items) => {
            if items.len() == 2 {
                if let Some(name) = &items[0].string {
                    return Ok(ActionRequest::NamedWithData(name.clone()));
                }
            }
        },
        KeymapAction::Other(_) => {},
    }
    Err(
        binding_diagnostic(
            context,
            binding.keystrokes.as_str(),
            binding.action_range.start..binding.action_range.end,
            "Expected action to be a string  or a two-element array of [string, value]",
        ),
    )
}

/// What came of a block: its context was refused, or each of its bindings was
/// made or not.
#[derive(Debug)]
pub enum BlockOutcome {
    ContextRefused(SettingsDiagnostic),
    Bound(Vec<Option<SettingsDiagnostic>>),
}

/// The diagnostics of the first `n` bindings.
pub open spec fn binding_errors(results: Seq<Option<SettingsDiagnostic>>, n: nat) -> Seq<
    SettingsDiagnostic,
>
    decreases n,
{
    if n == 0 {
        Seq::empty()
    } else {
        let before = binding_errors(results, (n - 1) as nat);
        match results[n - 1] {
            Some(d) => before.push(d),
            None => before,
        }
    }
}

/// The diagnostics of blocks, in their order.
pub open spec fn block_errors(blocks: Seq<BlockOutcome>) -> Seq<SettingsDiagnostic>
    decreases blocks.len(),
{
    if blocks.len() == 0 {
        Seq::empty()
    } else {
        block_errors(blocks.drop_last()) + match blocks.last() {
            BlockOutcome::ContextRefused(d) => seq![d],
            BlockOutcome::Bound(results) => binding_errors(results@, results@.len()),
        }
    }
}

/// The error of a result, if it is one.
pub open spec fn error_of(r: Result<(), String>) -> Option<String> {
    match r {
        Ok(_) => None,
        Err(error) => Some(error),
    }
}

/// Sums up what came of the blocks of a keymap file: an error describes
/// everything that went wrong.
pub fn register_bindings(path: SettingsPathRef<'_>, content: &str, blocks: Vec<BlockOutcome>) -> (r:
    Result<(), String>)
    requires
        content.spec_bytes().len() < u32::MAX,
    ensures
        exists|shown: Seq<char>|
            #[trigger] path.shown_as(shown) && is_report(
                error_of(r),
                shown,
                DIAGNOSTICS_LIMIT as nat,
                content.spec_bytes(),
                block_errors(blocks@),
            ),
{
    let ghost all = blocks@;
    let mut blocks = blocks;
    let mut diagnostics: Vec<SettingsDiagnostic> = Vec::new();
    let ghost mut n: int = 0;
    assert(all.take(0) =~= Seq::<BlockOutcome>::empty());
    assert(all.skip(0) =~= all);
    while blocks.len() > 0
        invariant
            0 <= n <= all.len(),
            blocks@ == all.skip(n),
            diagnostics@ == block_errors(all.take(n)),
        decreases blocks@.len(),
    {
        let ghost before = diagnostics@;
        let block = blocks.remove(0);
        proof {
            assert(block == all[n]);
            assert(blocks@ =~= all.skip(n + 1));
            assert(all.take(n + 1).drop_last() =~= all.take(n));
            assert(all.take(n + 1).last() == block);
        }
        match block {
            BlockOutcome::ContextRefused(d) => {
                let ghost refused = d;
                diagnostics.push(d);
                assert(diagnostics@ =~= before + seq![refused]);
            },
            BlockOutcome::Bound(results) => {
                let ghost given = results@;
                let mut results = results;
                let ghost mut m: nat = 0;
                assert(given.skip(0) =~= given);
                assert(before + binding_errors(given, 0) =~= before);
                while results.len() > 0
                    invariant
                        m <= given.len(),
                        results@ == given.skip(m as int),
                        diagnostics@ == before + binding_errors(given, m),
                    decreases results@.len(),
                {
                    let result = results.remove(0);
                    let ghost sofar = binding_errors(given, m);
                    proof {
                        assert(result == given[m as int]);
                        assert(results@ =~= given.skip(m as int + 1));
                        m = m + 1;
                    }
                    if let Some(d) = result {
                        let ghost one = d;
                        diagnostics.push(d);
                        assert(diagnostics@ =~= before + sofar.push(one));
                    }
                }
            },
        }
        proof {
            n = n + 1;
        }
    }
    assert(all.take(n) =~= all);
    match path.diagnostics_to_string(DIAGNOSTICS_LIMIT, content, diagnostics) {
        Some(message) => Err(message),
        None => Ok(()),
    }
}

/// A way to write an action in a keymap file, for the schema of such files.
#[derive(Debug)]
pub enum ActionAlternative {
    /// One of these names.
    Names(Vec<String>),
    Array,
    Null,
    /// A name that is no longer used, with a message.
    Deprecated { name: String, message: String },
}

/// The ways to write an action: one of the names, an array, null, and each name
/// that another has replaced.
pub fn generate_alternatives(
    action_names: Vec<String>,
    deprecations: &Vec<(String, String)>,
) -> (r: Vec<ActionAlternative>)
    ensures
        r@.len() == 3 + deprecations@.len(),
        r@[0] matches ActionAlternative::Names(names) && names@ == action_names@,
        r@[1] is Array,
        r@[2] is Null,
        forall|k: int|
            0 <= k < deprecations@.len() ==> (#[trigger] r@[k + 3] matches ActionAlternative::Deprecated {
                name,
                message,
            } && name@ == deprecations@[k].0@ && message@ == "Deprecated, use "@
                + deprecations@[k].1@),
{
    let mut r: Vec<ActionAlternative> = Vec::new();
    r.push(ActionAlternative::Names(action_names));
    r.push(ActionAlternative::Array);
    r.push(ActionAlternative::Null);
    let mut k: usize = 0;
    while k < deprecations.len()
        invariant
            k <= deprecations@.len(),
            r@.len() == 3 + k,
            r@[0] matches ActionAlternative::Names(names) && names@ == action_names@,
            r@[1] is Array,
            r@[2] is Null,
            forall|j: int|
                3 <= j < 3 + k ==> (#[trigger] r@[j] matches ActionAlternative::Deprecated {
                    name,
                    message,
                } && name@ == deprecations@[j - 3].0@ && message@ == "Deprecated, use "@
                    + deprecations@[j - 3].1@),
        decreases deprecations@.len() - k,
    {
        let mut message = "Deprecated, use ".to_owned();
        message.append(deprecations[k].1.as_str());
        r.push(ActionAlternative::Deprecated { name: deprecations[k].0.clone(), message });
        k = k + 1;
    }
    r
}

impl KeymapFile {
    pub fn blocks(&self) -> (r: &Vec<KeymapBlock>)
        ensures
            *r == self.0,
    {
        &self.0
    }
}

/// Every diagnostic of a binding is reported, in the order of the bindings.
pub proof fn law_all_binding_errors_count(results: Seq<Option<SettingsDiagnostic>>, n: nat)
    requires
        n <= results.len(),
    ensures
        binding_errors(results, n) == results.take(n as int).filter_map(
            |result: Option<SettingsDiagnostic>| result,
        ),
    decreases n,
{
    let same = |result: Option<SettingsDiagnostic>| result;
    reveal(Seq::filter_map);
    if n > 0 {
        law_all_binding_errors_count(results, (n - 1) as nat);
        assert(results.take(n as int).drop_last() =~= results.take(n - 1));
        let before = results.take(n - 1).filter_map(same);
        if let Some(d) = results[n - 1] {
            assert(before + seq![d] =~= before.push(d));
        }
    }
}

/// Every diagnostic of every block is reported, in the order of the blocks: that of a
/// context that was refused, or those of the bindings.
pub proof fn law_all_block_errors_count(blocks: Seq<BlockOutcome>)
    ensures
        block_errors(blocks) == blocks.map_values(
            |block: BlockOutcome|
                match block {
                    BlockOutcome::ContextRefused(d) => seq![d],
                    BlockOutcome::Bound(results) => results@.filter_map(
                        |result: Option<SettingsDiagnostic>| result,
                    ),
                },
        ).flatten(),
    decreases blocks.len(),
{
    let errors = |block: BlockOutcome|
        match block {
            BlockOutcome::ContextRefused(d) => seq![d],
            BlockOutcome::Bound(results) => results@.filter_map(
                |result: Option<SettingsDiagnostic>| result,
            ),
        };
    if blocks.len() > 0 {
        law_all_block_errors_count(blocks.drop_last());
        let before = blocks.drop_last().map_values(errors);
        assert(blocks.map_values(errors) =~= before.push(errors(blocks.last())));
        before.lemma_flatten_push(errors(blocks.last()));
        if let BlockOutcome::Bound(results) = blocks.last() {
            law_all_binding_errors_count(results@, results@.len());
            assert(results@.take(results@.len() as int) =~= results@);
        }
    } else {
        assert(blocks.map_values(errors) =~= Seq::empty());
    }
}

/// The items of an array are shown one after another with commas between them.
pub proof fn law_items_are_listed(items: Seq<KeymapItem>, n: nat)
    requires
        0 < n <= items.len(),
    ensures
        items_text(items, n) + ", "@ == items.take(n as int).map_values(
            |item: KeymapItem| item.json@ + ", "@,
        ).flatten(),
    decreases n,
{
    let shown = |item: KeymapItem| item.json@ + ", "@;
    let all = items.take(n as int).map_values(shown);
    if n == 1 {
        assert(all =~= seq![items[0].json@ + ", "@]);
        all.lemma_flatten_one_element();
    } else {
        law_items_are_listed(items, (n - 1) as nat);
        let before = items.take(n - 1).map_values(shown);
        assert(all =~= before.push(items[n - 1].json@ + ", "@));
        before.lemma_flatten_push(items[n - 1].json@ + ", "@);
        assert(items_text(items, n) + ", "@ =~= items_text(items, (n - 1) as nat) + ", "@ + (
        items[n - 1].json@ + ", "@));
    }
}

/// A name asks for the action of that name, null for none, and an array of a name and
/// data for the action with data; nothing else asks for anything.
pub proof fn law_requests(action: KeymapAction)
    ensures
        requested(action) == Some(ActionRequest::NoAction) <==> action is Null,
        action matches KeymapAction::Name(name) ==> requested(action) == Some(
            ActionRequest::Named(name),
        ),
        requested(action) matches Some(ActionRequest::Named(name)) ==> action
            == KeymapAction::Name(name),
        requested(action) matches Some(ActionRequest::NamedWithData(name)) ==> (
        action matches KeymapAction::Array(items) && items@.len() == 2 && items@[0].string == Some(
            name,
        )),
        action matches KeymapAction::Array(items) ==> (items@.len() == 2 ==> (
        items@[0].string matches Some(name) ==> requested(action) == Some(
            ActionRequest::NamedWithData(name),
        ))),
        action is Other ==> requested(action) is None,
{
}

} // verus!
