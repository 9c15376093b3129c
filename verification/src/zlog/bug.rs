//! Reports of bugs: each place in the code reports once.
use vstd::prelude::*;
use vstd::string::*;

verus! {

/// The handler that bugs are reported to, if there is one. It receives the
/// message, the module path, the file and the line.
pub struct BugHandler<F> {
    pub handler: Option<F>,
}

/// A place in the code that may report a bug.
#[derive(Debug)]
pub struct BugSite {
    pub reported: bool,
}

/// Sets the handler that is called when a place reports a bug for the first
/// time.
pub fn set_bug_handler<F>(slot: &mut BugHandler<F>, handler: F)
    ensures
        final(slot).handler == Some(handler),
{
    slot.handler = Some(handler);
}

/// Clears the handler.
pub fn clear_bug_handler<F>(slot: &mut BugHandler<F>)
    ensures
        final(slot).handler is None,
{
    slot.handler = None;
}

/// Whether a handler takes a report.
pub open spec fn takes<F: Fn(&str, &str, &str, u32)>(
    slot: &BugHandler<F>,
    message: &str,
    module: &str,
    file: &str,
    line: u32,
) -> bool {
    slot.handler matches Some(f) ==> f.requires((message, module, file, line))
}

/// Calls the handler if one is set, and tells whether one is.
pub fn call_bug_handler<F: Fn(&str, &str, &str, u32)>(
    slot: &BugHandler<F>,
    message: &str,
    module: &str,
    file: &str,
    line: u32,
) -> (called: bool)
    requires
        takes(slot, message, module, file, line),
    ensures
        called == (slot.handler is Some),
        slot.handler matches Some(f) ==> f.ensures((message, module, file, line), ()),
{
    match &slot.handler {
        Some(handler) => {
            handler(message, module, file, line);
            true
        },
        None => false,
    }
}

impl BugSite {
    /// A place that has not reported.
    pub fn new() -> (r: Self)
        ensures
            !r.reported,
    {
        BugSite { reported: false }
    }

    /// Whether a report from this place reaches a handler.
    pub open spec fn calls(&self, has_handler: bool) -> bool {
        !self.reported && has_handler
    }

    /// Reports a bug, unless this place has done so. Tells whether the handler
    /// was called.
    pub fn report<F: Fn(&str, &str, &str, u32)>(
        &mut self,
        slot: &BugHandler<F>,
        message: &str,
        module: &str,
        file: &str,
        line: u32,
    ) -> (called: bool)
        requires
            takes(slot, message, module, file, line),
        ensures
            final(self).reported,
            called == old(self).calls(slot.handler is Some),
            called ==> slot.handler is Some && (slot.handler->0).ensures(
                (message, module, file, line),
                (),
            ),
    {
        let should_report = !self.reported;
        self.reported = true;
        if should_report {
            call_bug_handler(slot, message, module, file, line)
        } else {
            false
        }
    }
}

/// Whether slots follow one another by changes, each setting a handler or clearing
/// it, from one without a handler.
pub open spec fn is_slot_history<F>(
    slots: Seq<BugHandler<F>>,
    changes: Seq<Option<F>>,
) -> bool {
    &&& slots.len() == changes.len() + 1
    &&& slots[0].handler is None
    &&& forall|k: int|
        0 <= k < changes.len() ==> slots[k + 1].handler == #[trigger] changes[k]
}

/// The last change decides: a handler that was set is the one that is called, and
/// after a clearing, or before any change, there is none to call.
pub proof fn law_last_change_decides<F>(slots: Seq<BugHandler<F>>, changes: Seq<Option<F>>)
    requires
        is_slot_history(slots, changes),
    ensures
        slots.last().handler == if changes.len() == 0 {
            None
        } else {
            changes.last()
        },
{
    if changes.len() > 0 {
        let k = changes.len() - 1;
        assert(slots[k + 1].handler == changes[k]);
    }
}

/// How many reports in a row from one place reach a handler, given for each
/// whether a handler is set.
pub open spec fn calls_in(site: BugSite, handlers: Seq<bool>) -> nat
    decreases handlers.len(),
{
    if handlers.len() == 0 {
        0
    } else {
        calls_in(BugSite { reported: true }, handlers.drop_first()) + if site.calls(handlers[0]) {
            1nat
        } else {
            0nat
        }
    }
}

/// Of all reports from one place only the first can reach a handler.
pub proof fn law_only_the_first_is_reported(site: BugSite, handlers: Seq<bool>)
    ensures
        calls_in(site, handlers) == if !site.reported && handlers.len() > 0 && handlers[0] {
            1nat
        } else {
            0nat
        },
    decreases handlers.len(),
{
    if handlers.len() > 0 {
        law_only_the_first_is_reported(BugSite { reported: true }, handlers.drop_first());
    }
}

/// The line that a bug leaves in the log.
pub fn log_line(message: &str) -> (s: String)
    ensures
        s@ == "bug: "@ + message@,
{
    let mut s = "bug: ".to_owned();
    s.append(message);
    s
}

} // verus!
