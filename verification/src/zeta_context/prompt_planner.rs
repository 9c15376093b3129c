//! Which snippets fit a prompt's budget: a greedy choice by score density.
use crate::text::{lemma_boundary_in_range, lemma_line_end, lemma_line_start, line_end, line_start};
use crate::zeta_context::excerpt::ExcerptRanges;
use crate::zeta_context::identifier_index::IdentifierIndex;
use crate::zeta_context::identifier_references::{ScoredSnippet, SnippetStyle};
use crate::zeta_context::outline::OutlineId;
use crate::zeta_context::prompt::{
    lemma_parent_lines, parent_lines, parent_signature, PlannedPrompt, PlannedSnippet,
};
use priority_queue::PriorityQueue;
use std::collections::HashSet;
use vstd::prelude::*;
use vstd::std_specs::hash::*;
use vstd::utf8::encode_utf8_valid_utf8;

verus! {

broadcast use {vstd::std_specs::hash::group_hash_axioms, vstd::set::group_set_axioms};

/// A queue of items with priorities.
#[verifier::external_type_specification]
#[verifier::external_body]
#[verifier::reject_recursive_types(I)]
#[verifier::reject_recursive_types(P)]
#[verifier::reject_recursive_types(H)]
pub struct ExPriorityQueue<I, P, H>(PriorityQueue<I, P, H>);

/// A queue of entries, each the number of an item and the code of a style.
pub type EntryQueue = PriorityQueue<(u32, u8), i64>;

/// The entries of a queue: the number of an item and a style, and their
/// priority.
pub uninterp spec fn queue_entries(queue: EntryQueue) -> Map<(u32, u8), i64>;

/// The entries of an empty queue.
pub open spec fn no_entries() -> Map<(u32, u8), i64> {
    Map::empty()
}

/// `PriorityQueue::new`: a queue without entries.
#[verifier::external_body]
fn new_queue() -> (queue: EntryQueue)
    ensures
        queue_entries(queue) == no_entries(),
{
    PriorityQueue::new()
}

/// `PriorityQueue::push`: adds an entry, or sets the priority of the one that
/// is there.
#[verifier::external_body]
fn push_entry(queue: &mut EntryQueue, entry: (u32, u8), priority: i64)
    ensures
        queue_entries(*final(queue)) == queue_entries(*old(queue)).insert(entry, priority),
{
    queue.push(entry, priority);
}

/// `PriorityQueue::pop`: takes out an entry whose priority no other exceeds.
/// Which of several entries of the greatest priority it is stays open.
#[verifier::external_body]
fn pop_entry(queue: &mut EntryQueue) -> (r: Option<((u32, u8), i64)>)
    ensures
        match r {
            Some((entry, priority)) => {
                &&& queue_entries(*old(queue)).contains_pair(entry, priority)
                &&& forall|other: (u32, u8)|
                    #[trigger] queue_entries(*old(queue)).contains_key(other)
                        ==> queue_entries(*old(queue))[other] <= priority
                &&& queue_entries(*final(queue)) == queue_entries(*old(queue)).remove(entry)
            },
            None => {
                &&& queue_entries(*old(queue)) == no_entries()
                &&& queue_entries(*final(queue)) == queue_entries(*old(queue))
            },
        },
{
    queue.pop()
}

/// The code of a style in the queue.
pub open spec fn style_code(style: SnippetStyle) -> u8 {
    match style {
        SnippetStyle::Signature => 0,
        SnippetStyle::Definition => 1,
    }
}

/// The style of a code.
pub open spec fn style_of(code: u8) -> SnippetStyle {
    if code == 0 {
        SnippetStyle::Signature
    } else {
        SnippetStyle::Definition
    }
}

/// The state of planning: the snippets taken, by the number of their
/// definition, the parents whose signatures are paid for, the budget spent and
/// the entries still to be considered.
#[verifier::ext_equal]
pub struct Plan {
    pub taken: Map<u32, PlannedSnippet>,
    pub parents: Set<u32>,
    pub used: int,
    pub queue: Map<(u32, u8), i64>,
}

/// The first snippet from `k` on whose definition has a number.
pub open spec fn snippet_from(snippets: Seq<ScoredSnippet>, id: u32, k: int) -> Option<int>
    decreases snippets.len() - k,
{
    if k >= snippets.len() {
        None
    } else if snippets[k].definition.id.0 == id {
        Some(k)
    } else {
        snippet_from(snippets, id, k + 1)
    }
}

/// The bytes of the signatures of those among the first `n` parents that are
/// in the index and not paid for.
pub open spec fn missing_parents(
    index: &IdentifierIndex,
    parents: Seq<OutlineId>,
    paid: Set<u32>,
    n: nat,
) -> int
    decreases n,
{
    if n == 0 {
        0
    } else {
        let parent = parents[n - 1];
        missing_parents(index, parents, paid, (n - 1) as nat) + (if !paid.contains(parent.0)
            && index.located(parent) is Some {
            parent_lines(index, parent).1 - parent_lines(index, parent).0
        } else {
            0
        })
    }
}

/// The numbers of the first `n` parents added to a set.
pub open spec fn with_parents(paid: Set<u32>, parents: Seq<OutlineId>, n: nat) -> Set<u32>
    decreases n,
{
    if n == 0 {
        paid
    } else {
        with_parents(paid, parents, (n - 1) as nat).insert(parents[n - 1].0)
    }
}

/// What taking a snippet in a style costs on top of what is spent: its lines,
/// less those of the style it is taken in already, and the signatures of
/// parents not paid for.
pub open spec fn added_cost(
    index: &IdentifierIndex,
    snippet: ScoredSnippet,
    style: SnippetStyle,
    plan: Plan,
) -> int {
    let id = snippet.definition.id.0;
    snippet.len(index, style) - (if plan.taken.contains_key(id) {
        plan.taken[id].budget_used as int
    } else {
        0
    }) + missing_parents(
        index,
        snippet.definition.parents@,
        plan.parents,
        snippet.definition.parents@.len(),
    )
}

/// Whether an entry is taken: it shows more than what is taken already, and
/// the budget covers it.
pub open spec fn is_taken(
    index: &IdentifierIndex,
    snippet: ScoredSnippet,
    style: SnippetStyle,
    plan: Plan,
    budget: int,
) -> bool {
    let id = snippet.definition.id.0;
    &&& !(plan.taken.contains_key(id) && snippet.len(index, style) <= plan.taken[id].budget_used)
    &&& plan.used + added_cost(index, snippet, style, plan) <= budget
}

/// The plan after an entry was considered. A signature that is taken puts the
/// definition in the queue, if that shows more, by what it adds.
pub open spec fn considered(
    index: &IdentifierIndex,
    snippets: Seq<ScoredSnippet>,
    budget: int,
    plan: Plan,
    entry: (u32, u8),
) -> Plan {
    let k = snippet_from(snippets, entry.0, 0)->0;
    let snippet = snippets[k];
    let style = style_of(entry.1);
    let rest = plan.queue.remove(entry);
    if is_taken(index, snippet, style, plan, budget) {
        Plan {
            taken: plan.taken.insert(
                entry.0,
                PlannedSnippet {
                    scored_snippet: k as usize,
                    style,
                    budget_used: snippet.len(index, style) as usize,
                },
            ),
            parents: with_parents(
                plan.parents,
                snippet.definition.parents@,
                snippet.definition.parents@.len(),
            ),
            used: plan.used + added_cost(index, snippet, style, plan),
            queue: if style is Signature && snippet.len(index, SnippetStyle::Definition)
                > snippet.len(index, SnippetStyle::Signature) {
                rest.insert((entry.0, 1), snippet.upgrade_density)
            } else {
                rest
            },
        }
    } else {
        Plan { queue: rest, ..plan }
    }
}

/// The queue of the first `n` snippets in both styles.
pub open spec fn initial_queue(snippets: Seq<ScoredSnippet>, n: nat) -> Map<(u32, u8), i64>
    decreases n,
{
    if n == 0 {
        Map::empty()
    } else {
        let snippet = snippets[n - 1];
        initial_queue(snippets, (n - 1) as nat).insert(
            (snippet.definition.id.0, 0),
            snippet.signature_density,
        ).insert((snippet.definition.id.0, 1), snippet.definition_density)
    }
}

/// The plan before any entry was considered: the excerpt is paid for.
pub open spec fn initial_plan(snippets: Seq<ScoredSnippet>, excerpt: ExcerptRanges) -> Plan {
    Plan {
        taken: Map::empty(),
        parents: Set::empty(),
        used: excerpt.total_size() as int,
        queue: initial_queue(snippets, snippets.len()),
    }
}

/// The plan after entries were considered one after another.
pub open spec fn plan_after(
    index: &IdentifierIndex,
    snippets: Seq<ScoredSnippet>,
    budget: int,
    excerpt: ExcerptRanges,
    entries: Seq<(u32, u8)>,
) -> Plan
    decreases entries.len(),
{
    if entries.len() == 0 {
        initial_plan(snippets, excerpt)
    } else {
        considered(
            index,
            snippets,
            budget,
            plan_after(index, snippets, budget, excerpt, entries.drop_last()),
            entries.last(),
        )
    }
}

/// Whether no entry of a queue has a greater priority than `entry`, which is
/// one of them.
pub open spec fn is_greatest(queue: Map<(u32, u8), i64>, entry: (u32, u8)) -> bool {
    &&& queue.contains_key(entry)
    &&& forall|other: (u32, u8)| #[trigger] queue.contains_key(other) ==> queue[other] <= queue[entry]
}

/// Whether entries are considered in the order of their priorities.
pub open spec fn greedy(
    index: &IdentifierIndex,
    snippets: Seq<ScoredSnippet>,
    budget: int,
    excerpt: ExcerptRanges,
    entries: Seq<(u32, u8)>,
) -> bool
    decreases entries.len(),
{
    entries.len() > 0 ==> {
        &&& greedy(index, snippets, budget, excerpt, entries.drop_last())
        &&& is_greatest(
            plan_after(index, snippets, budget, excerpt, entries.drop_last()).queue,
            entries.last(),
        )
    }
}

/// The number of the definition behind a planned snippet.
pub open spec fn planned_id(snippets: Seq<ScoredSnippet>, planned: PlannedSnippet) -> u32 {
    snippets[planned.scored_snippet as int].definition.id.0
}

/// Whether what a planned snippet used of the budget are the bytes of its lines.
pub open spec fn costs_its_lines(
    index: &IdentifierIndex,
    snippets: Seq<ScoredSnippet>,
    planned: PlannedSnippet,
) -> bool {
    planned.budget_used == snippets[planned.scored_snippet as int].len(index, planned.style)
}

/// Whether a list holds the taken snippets, each number once.
pub open spec fn lists(
    planned: Seq<PlannedSnippet>,
    snippets: Seq<ScoredSnippet>,
    taken: Map<u32, PlannedSnippet>,
) -> bool {
    &&& forall|j: int|
        0 <= j < planned.len() ==> {
            &&& (#[trigger] planned[j]).scored_snippet < snippets.len()
            &&& taken.contains_pair(planned_id(snippets, planned[j]), planned[j])
        }
    &&& forall|id: u32| #[trigger]
        taken.contains_key(id) ==> exists|j: int|
            0 <= j < planned.len() && planned_id(snippets, #[trigger] planned[j]) == id
    &&& forall|i: int, j: int|
        0 <= i < j < planned.len() ==> planned_id(snippets, #[trigger] planned[i]) != planned_id(
            snippets,
            #[trigger] planned[j],
        )
}

/// A snippet found by its number has it.
proof fn lemma_snippet_from(snippets: Seq<ScoredSnippet>, id: u32, k: int)
    requires
        0 <= k,
    ensures
        snippet_from(snippets, id, k) matches Some(j) ==> k <= j < snippets.len()
            && snippets[j].definition.id.0 == id,
        forall|j: int|
            k <= j < snippets.len() && (#[trigger] snippets[j]).definition.id.0 == id
                ==> snippet_from(snippets, id, k) is Some,
    decreases snippets.len() - k,
{
    if k < snippets.len() {
        lemma_snippet_from(snippets, id, k + 1);
    }
}

/// Every entry of a queue is that of a snippet.
spec fn known_entries(snippets: Seq<ScoredSnippet>, queue: Map<(u32, u8), i64>) -> bool {
    forall|entry: (u32, u8)| #[trigger]
        queue.contains_key(entry) ==> entry.1 <= 1 && snippet_from(snippets, entry.0, 0) is Some
}

/// The number of entries in a style.
spec fn entries_in_style(queue: Map<(u32, u8), i64>, code: u8) -> Set<(u32, u8)> {
    queue.dom().filter(|entry: (u32, u8)| entry.1 == code)
}

/// A bound on the number of entries still to be considered.
spec fn left_to_consider(queue: Map<(u32, u8), i64>) -> nat {
    2 * entries_in_style(queue, 0).len() + entries_in_style(queue, 1).len()
}

/// Taking an entry out, and putting a definition in for a signature, leaves
/// less to consider.
proof fn lemma_less_to_consider(queue: Map<(u32, u8), i64>, entry: (u32, u8), priority: i64)
    requires
        queue.dom().finite(),
        queue.contains_key(entry),
        entry.1 <= 1,
    ensures
        left_to_consider(queue.remove(entry)) < left_to_consider(queue),
        entry.1 == 0 ==> left_to_consider(queue.remove(entry).insert((entry.0, 1), priority))
            < left_to_consider(queue),
        queue.remove(entry).dom().finite(),
        queue.remove(entry).insert((entry.0, 1), priority).dom().finite(),
{
    broadcast use vstd::set_lib::group_set_lib_default;

    let rest = queue.remove(entry);
    let sig = entries_in_style(queue, 0);
    let def = entries_in_style(queue, 1);
    assert(sig.finite() && def.finite());
    if entry.1 == 0 {
        assert(entries_in_style(rest, 0) =~= sig.remove(entry));
        assert(entries_in_style(rest, 1) =~= def);
        let more = rest.insert((entry.0, 1), priority);
        assert(entries_in_style(more, 0) =~= sig.remove(entry));
        assert(entries_in_style(more, 1) =~= def.insert((entry.0, 1u8)));
    } else {
        assert(entries_in_style(rest, 0) =~= sig);
        assert(entries_in_style(rest, 1) =~= def.remove(entry));
    }
}

/// The choice of snippets while it is made.
pub struct PromptPlanner {
    pub snippets: Vec<PlannedSnippet>,
    pub included_parents: HashSet<u32>,
    pub budget_used: usize,
}

impl PromptPlanner {
    /// Whether the planner holds a plan, but for its queue.
    pub open spec fn holds(&self, snippets: Seq<ScoredSnippet>, plan: Plan) -> bool {
        &&& lists(self.snippets@, snippets, plan.taken)
        &&& self.included_parents@ == plan.parents
        &&& self.budget_used == plan.used
    }

    /// The position of a taken snippet.
    fn position_of(&self, snippets: &Vec<ScoredSnippet>, id: u32) -> (r: Option<usize>)
        requires
            forall|j: int|
                0 <= j < self.snippets@.len() ==> (#[trigger] self.snippets@[j]).scored_snippet
                    < snippets@.len(),
        ensures
            match r {
                Some(j) => j < self.snippets@.len() && planned_id(
                    snippets@,
                    self.snippets@[j as int],
                ) == id,
                None => forall|j: int|
                    0 <= j < self.snippets@.len() ==> planned_id(
                        snippets@,
                        #[trigger] self.snippets@[j],
                    ) != id,
            },
    {
        let mut j: usize = 0;
        while j < self.snippets.len()
            invariant
                j <= self.snippets@.len(),
                forall|j: int|
                    0 <= j < self.snippets@.len() ==> (#[trigger] self.snippets@[j]).scored_snippet
                        < snippets@.len(),
                forall|i: int|
                    0 <= i < j ==> planned_id(snippets@, #[trigger] self.snippets@[i]) != id,
            decreases self.snippets@.len() - j,
        {
            let planned = self.snippets[j];
            assert(self.snippets@[j as int] == planned);
            if snippets[planned.scored_snippet].definition.id.0 == id {
                return Some(j);
            }
            j = j + 1;
        }
        None
    }

    /// The bytes of the parents' signatures that are not paid for.
    fn missing_parents(&self, index: &IdentifierIndex, parents: &Vec<OutlineId>) -> (n: u128)
        requires
            index.fits(),
        ensures
            n == missing_parents(index, parents@, self.included_parents@, parents@.len()),
            n <= parents@.len() * usize::MAX,
    {
        let total: usize = parents.len();
        let mut n: u128 = 0;
        let mut k: usize = 0;
        while k < parents.len()
            invariant
                k <= parents@.len(),
                total == parents@.len(),
                index.fits(),
                n == missing_parents(index, parents@, self.included_parents@, k as nat),
                n <= k * usize::MAX,
            decreases parents@.len() - k,
        {
            assert((k + 1) * usize::MAX == k * usize::MAX + usize::MAX) by (nonlinear_arith);
            assert(k * usize::MAX <= usize::MAX * usize::MAX) by (nonlinear_arith)
                requires
                    k <= usize::MAX,
            ;
            assert(usize::MAX * usize::MAX + usize::MAX <= u128::MAX) by (nonlinear_arith)
                requires
                    usize::MAX <= 0xffff_ffff_ffff_ffff,
            ;
            let parent = parents[k];
            if !self.included_parents.contains(&parent.0) {
                if let Some(range) = parent_signature(index, parent) {
                    n = n + (range.end - range.start) as u128;
                }
            }
            k = k + 1;
        }
        n
    }

    /// Considers a snippet in a style: takes it if it shows more than what is
    /// taken already and the budget covers it.
    fn consider(
        &mut self,
        index: &IdentifierIndex,
        snippets: &Vec<ScoredSnippet>,
        k: usize,
        style: SnippetStyle,
        byte_budget: usize,
        Ghost(plan): Ghost<Plan>,
    ) -> (taken: bool)
        requires
            index.fits(),
            k < snippets@.len(),
            snippets@[k as int].fits(index),
            snippet_from(snippets@, snippets@[k as int].definition.id.0, 0) == Some(k as int),
            old(self).holds(snippets@, plan),
        ensures
            taken == is_taken(index, snippets@[k as int], style, plan, byte_budget as int),
            0 <= snippets@[k as int].len(index, style) <= usize::MAX,
            final(self).holds(
                snippets@,
                considered(
                    index,
                    snippets@,
                    byte_budget as int,
                    plan,
                    (snippets@[k as int].definition.id.0, style_code(style)),
                ),
            ),
    {
        let snippet = &snippets[k];
        let id: u32 = snippet.definition.id.0;
        let range = snippet.line_range(index, style);
        let len: usize = range.end - range.start;
        let ghost entry = (id, style_code(style));
        let ghost next = considered(index, snippets@, byte_budget as int, plan, entry);
        let ghost before = self.snippets@;
        let position = self.position_of(snippets, id);
        let mut own_cost: usize = len;
        if let Some(j) = position {
            let existing = self.snippets[j];
            assert(before[j as int] == existing);
            if len <= existing.budget_used {
                return false;
            }
            own_cost = len - existing.budget_used;
        }
        let parents = &snippet.definition.parents;
        let missing: u128 = self.missing_parents(index, parents);
        let left: usize = if self.budget_used <= byte_budget {
            byte_budget - self.budget_used
        } else {
            0
        };
        if self.budget_used > byte_budget || own_cost > left || missing > (left - own_cost) as u128 {
            proof {
                self.lemma_cost_positive(index, snippets@[k as int], plan);
            }
            return false;
        }
        self.budget_used = self.budget_used + own_cost + missing as usize;
        let mut p: usize = 0;
        let ghost paid = self.included_parents@;
        while p < parents.len()
            invariant
                p <= parents@.len(),
                self.included_parents@ == with_parents(paid, parents@, p as nat),
                self.snippets@ == before,
                self.budget_used == next.used,
            decreases parents@.len() - p,
        {
            self.included_parents.insert(parents[p].0);
            p = p + 1;
        }
        let planned = PlannedSnippet { scored_snippet: k, style, budget_used: len };
        match position {
            Some(j) => {
                self.snippets.set(j, planned);
            },
            None => {
                self.snippets.push(planned);
            },
        }
        proof {
            let now = self.snippets@;
            assert(next.taken == plan.taken.insert(id, planned));
            let at: int = match position {
                Some(j) => j as int,
                None => before.len() as int,
            };
            assert(now[at] == planned);
            assert forall|j: int| 0 <= j < now.len() implies {
                &&& (#[trigger] now[j]).scored_snippet < snippets@.len()
                &&& next.taken.contains_pair(planned_id(snippets@, now[j]), now[j])
            } by {
                if j != at {
                    assert(now[j] == before[j]);
                    assert(planned_id(snippets@, before[j]) != id) by {
                        if position is Some {
                            if j < at {
                                assert(planned_id(snippets@, before[j]) != planned_id(
                                    snippets@,
                                    before[at],
                                ));
                            } else {
                                assert(planned_id(snippets@, before[at]) != planned_id(
                                    snippets@,
                                    before[j],
                                ));
                            }
                        }
                    }
                }
            }
            assert forall|other: u32| #[trigger]
                next.taken.contains_key(other) implies exists|j: int|
                0 <= j < now.len() && planned_id(snippets@, #[trigger] now[j]) == other by {
                if other == id {
                    assert(planned_id(snippets@, now[at]) == id);
                } else {
                    assert(plan.taken.contains_key(other));
                    let j = choose|j: int|
                        0 <= j < before.len() && planned_id(snippets@, #[trigger] before[j])
                            == other;
                    assert(j != at);
                    assert(now[j] == before[j]);
                }
            }
            assert forall|i: int, j: int| 0 <= i < j < now.len() implies planned_id(
                snippets@,
                #[trigger] now[i],
            ) != planned_id(snippets@, #[trigger] now[j]) by {
                if i != at {
                    assert(now[i] == before[i]);
                }
                if j != at {
                    assert(now[j] == before[j]);
                }
            }
        }
        true
    }

    /// The signatures of parents cost no less than nothing.
    proof fn lemma_cost_positive(
        &self,
        index: &IdentifierIndex,
        snippet: ScoredSnippet,
        plan: Plan,
    )
        requires
            index.fits(),
        ensures
            missing_parents(
                index,
                snippet.definition.parents@,
                plan.parents,
                snippet.definition.parents@.len(),
            ) >= 0,
    {
        lemma_missing_parents(
            index,
            snippet.definition.parents@,
            plan.parents,
            snippet.definition.parents@.len(),
        );
    }
}

proof fn lemma_missing_parents(
    index: &IdentifierIndex,
    parents: Seq<OutlineId>,
    paid: Set<u32>,
    n: nat,
)
    requires
        index.fits(),
    ensures
        missing_parents(index, parents, paid, n) >= 0,
    decreases n,
{
    if n > 0 {
        lemma_missing_parents(index, parents, paid, (n - 1) as nat);
        let parent = parents[n - 1];
        if index.located(parent) is Some {
            lemma_parent_lines(index, parent);
        }
    }
}

/// Every snippet's entries are in the queue that planning starts with.
proof fn lemma_initial_queue(snippets: Seq<ScoredSnippet>, n: nat)
    requires
        n <= snippets.len(),
    ensures
        known_entries(snippets, initial_queue(snippets, n)),
        initial_queue(snippets, n).dom().finite(),
    decreases n,
{
    if n > 0 {
        lemma_initial_queue(snippets, (n - 1) as nat);
        let id = snippets[n - 1].definition.id.0;
        lemma_snippet_from(snippets, id, 0);
        assert(snippet_from(snippets, id, 0) is Some);
    }
}

/// The position of the first snippet whose definition has a number.
fn find_snippet(snippets: &Vec<ScoredSnippet>, id: u32) -> (r: Option<usize>)
    ensures
        match r {
            Some(k) => snippet_from(snippets@, id, 0) == Some(k as int) && k < snippets@.len()
                && snippets@[k as int].definition.id.0 == id,
            None => snippet_from(snippets@, id, 0) is None,
        },
{
    let mut k: usize = 0;
    while k < snippets.len()
        invariant
            k <= snippets@.len(),
            snippet_from(snippets@, id, 0) == snippet_from(snippets@, id, k as int),
        decreases snippets@.len() - k,
    {
        if snippets[k].definition.id.0 == id {
            return Some(k);
        }
        k = k + 1;
    }
    None
}

/// The queue of all snippets in both styles.
fn fill_queue(snippets: &Vec<ScoredSnippet>) -> (queue: EntryQueue)
    ensures
        queue_entries(queue) == initial_queue(snippets@, snippets@.len()),
{
    let mut queue = new_queue();
    let mut n: usize = 0;
    while n < snippets.len()
        invariant
            n <= snippets@.len(),
            queue_entries(queue) == initial_queue(snippets@, n as nat),
        decreases snippets@.len() - n,
    {
        let snippet = &snippets[n];
        push_entry(&mut queue, (snippet.definition.id.0, 0), snippet.signature_density);
        push_entry(&mut queue, (snippet.definition.id.0, 1), snippet.definition_density);
        n = n + 1;
    }
    queue
}

impl PromptPlanner {
    /// Greedy one-pass knapsack algorithm to populate the prompt plan. Does the following:
    ///
    /// Initializes a priority queue by populating it with each snippet in each style, the score
    /// density being the priority.
    ///
    /// In a loop:
    ///
    /// 1. Takes the highest score density from the queue.
    ///
    /// 2. Computes how much additional budget is needed.
    ///
    /// - If it's already included, the difference in budget. It is left as it is where the new
    /// style needs no more than before.
    ///
    /// - If any of its parents are not already included, these also count towards the budget.
    ///
    /// 3. If the budget won't be exceeded, includes it in the plan. Otherwise, omits it and
    /// continues the loop.
    ///
    /// - When a `Signature` item is added to the plan, a `Definition` item is inserted into
    /// the queue, by the density of what it adds.
    pub fn populate(
        index: &IdentifierIndex,
        snippets: Vec<ScoredSnippet>,
        excerpt_file: usize,
        excerpt_ranges: ExcerptRanges,
        cursor_offset: usize,
        byte_budget: usize,
        root_path: String,
    ) -> (prompt: PlannedPrompt)
        requires
            index.fits(),
            excerpt_ranges.total_size() <= usize::MAX,
            forall|k: int|
                0 <= k < snippets@.len() ==> (#[trigger] snippets@[k]).fits(index),
        ensures
            prompt.scored == snippets,
            prompt.excerpt_file == excerpt_file,
            prompt.excerpt_ranges == excerpt_ranges,
            prompt.cursor_offset == cursor_offset,
            prompt.root_path == root_path,
            exists|entries: Seq<(u32, u8)>|
                {
                    &&& #[trigger] greedy(
                        index,
                        snippets@,
                        byte_budget as int,
                        excerpt_ranges,
                        entries,
                    )
                    &&& plan_after(
                        index,
                        snippets@,
                        byte_budget as int,
                        excerpt_ranges,
                        entries,
                    ).queue == no_entries()
                    &&& lists(
                        prompt.snippets@,
                        snippets@,
                        plan_after(
                            index,
                            snippets@,
                            byte_budget as int,
                            excerpt_ranges,
                            entries,
                        ).taken,
                    )
                },
            forall|j: int|
                0 <= j < prompt.snippets@.len() ==> costs_its_lines(
                    index,
                    snippets@,
                    #[trigger] prompt.snippets@[j],
                ),
    {
        let ghost budget = byte_budget as int;
        let ghost excerpt = excerpt_ranges;
        let ghost all = snippets@;
        let mut planner = PromptPlanner {
            snippets: Vec::new(),
            included_parents: HashSet::new(),
            budget_used: excerpt_ranges.size(),
        };
        let mut queue = fill_queue(&snippets);
        let ghost mut entries: Seq<(u32, u8)> = Seq::empty();
        let ghost mut plan = initial_plan(all, excerpt);
        proof {
            lemma_initial_queue(all, all.len());
            assert(planner.included_parents@ =~= Set::<u32>::empty());
            assert(planner.holds(all, plan));
        }
        loop
            invariant
                all == snippets@,
                budget == byte_budget,
                index.fits(),
                forall|k: int| 0 <= k < all.len() ==> (#[trigger] all[k]).fits(index),
                plan == plan_after(index, all, budget, excerpt, entries),
                greedy(index, all, budget, excerpt, entries),
                queue_entries(queue) == plan.queue,
                plan.queue.dom().finite(),
                known_entries(all, plan.queue),
                planner.holds(all, plan),
                forall|id: u32| #[trigger]
                    plan.taken.contains_key(id) ==> costs_its_lines(index, all, plan.taken[id]),
            ensures
                plan.queue == no_entries(),
            decreases left_to_consider(plan.queue),
        {
            let ((id, code), priority) = match pop_entry(&mut queue) {
                Some(popped) => popped,
                None => {
                    break;
                },
            };
            let ghost entry = (id, code);
            let ghost next = considered(index, all, budget, plan, entry);
            let ghost longer = entries.push(entry);
            proof {
                assert(plan.queue.contains_key(entry));
                assert(is_greatest(plan.queue, entry));
                assert(longer.drop_last() =~= entries);
                lemma_less_to_consider(plan.queue, entry, 0);
            }
            let k = match find_snippet(&snippets, id) {
                Some(k) => k,
                None => {
                    break;
                },
            };
            let style = if code == 0 {
                SnippetStyle::Signature
            } else {
                SnippetStyle::Definition
            };
            assert(style == style_of(code) && code == style_code(style));
            assert(all[k as int].fits(index));
            let taken = planner.consider(index, &snippets, k, style, byte_budget, Ghost(plan));
            if taken && code == 0 {
                let signature_range = snippets[k].line_range(index, SnippetStyle::Signature);
                let full_range = snippets[k].line_range(index, SnippetStyle::Definition);
                let size_diff: usize = (full_range.end - full_range.start) - (signature_range.end
                    - signature_range.start);
                if size_diff > 0 {
                    let density: i64 = snippets[k].upgrade_density;
                    proof {
                        lemma_less_to_consider(plan.queue, entry, density);
                    }
                    push_entry(&mut queue, (id, 1), density);
                }
            }
            proof {
                assert(queue_entries(queue) =~= next.queue);
                assert forall|other: u32| #[trigger]
                    next.taken.contains_key(other) implies costs_its_lines(
                    index,
                    all,
                    next.taken[other],
                ) by {
                    if !(taken && other == id) {
                        assert(plan.taken.contains_key(other));
                    }
                }
                entries = longer;
                plan = next;
            }
        }
        proof {
            assert forall|j: int| 0 <= j < planner.snippets@.len() implies costs_its_lines(
                index,
                all,
                #[trigger] planner.snippets@[j],
            ) by {
                let planned = planner.snippets@[j];
                assert(plan.taken.contains_pair(planned_id(all, planned), planned));
                assert(plan.taken.contains_key(planned_id(all, planned)));
            }
        }
        PlannedPrompt {
            scored: snippets,
            snippets: planner.snippets,
            excerpt_file,
            excerpt_ranges,
            cursor_offset,
            root_path,
        }
    }
}

/// Whatever is considered, no more is spent than the budget, or than the
/// excerpt alone needs where that exceeds the budget.
pub proof fn law_budget_kept(
    index: &IdentifierIndex,
    snippets: Seq<ScoredSnippet>,
    budget: int,
    excerpt: ExcerptRanges,
    entries: Seq<(u32, u8)>,
)
    ensures
        plan_after(index, snippets, budget, excerpt, entries).used <= if excerpt.total_size()
            <= budget {
            budget
        } else {
            excerpt.total_size() as int
        },
    decreases entries.len(),
{
    if entries.len() > 0 {
        law_budget_kept(index, snippets, budget, excerpt, entries.drop_last());
    }
}

/// The sum of what numbers cost.
pub open spec fn sum_of(numbers: Seq<u32>, cost: spec_fn(u32) -> int) -> int
    decreases numbers.len(),
{
    if numbers.len() == 0 {
        0
    } else {
        sum_of(numbers.drop_last(), cost) + cost(numbers.last())
    }
}

/// The bytes of the signature of a parent, none where it is not in the index.
pub open spec fn parent_cost(index: &IdentifierIndex, parent: u32) -> int {
    if index.located(OutlineId(parent)) is Some {
        let lines = parent_lines(index, OutlineId(parent));
        lines.1 - lines.0
    } else {
        0
    }
}

/// The bytes of several parents' signatures.
pub open spec fn parents_cost(index: &IdentifierIndex, parents: Seq<u32>) -> int {
    sum_of(parents, |parent: u32| parent_cost(index, parent))
}

/// The bytes of taken snippets.
spec fn taken_cost(taken: Map<u32, PlannedSnippet>, ids: Seq<u32>) -> int {
    sum_of(ids, |id: u32| taken[id].budget_used as int)
}

/// The bytes of the lines that planned snippets show.
pub open spec fn shown_bytes(
    index: &IdentifierIndex,
    snippets: Seq<ScoredSnippet>,
    planned: Seq<PlannedSnippet>,
) -> int
    decreases planned.len(),
{
    if planned.len() == 0 {
        0
    } else {
        let last = planned.last();
        shown_bytes(index, snippets, planned.drop_last()) + snippets[last.scored_snippet as int].len(
            index,
            last.style,
        )
    }
}

/// Whether a definition has a parent.
pub open spec fn has_parent(snippet: ScoredSnippet, parent: u32) -> bool {
    snippet.definition.parents@.contains(OutlineId(parent))
}

proof fn lemma_sum_same(numbers: Seq<u32>, f: spec_fn(u32) -> int, g: spec_fn(u32) -> int)
    requires
        forall|i: int| 0 <= i < numbers.len() ==> f(#[trigger] numbers[i]) == g(numbers[i]),
    ensures
        sum_of(numbers, f) == sum_of(numbers, g),
    decreases numbers.len(),
{
    if numbers.len() > 0 {
        let shorter = numbers.drop_last();
        assert forall|i: int| 0 <= i < shorter.len() implies f(#[trigger] shorter[i]) == g(
            shorter[i],
        ) by {
            assert(shorter[i] == numbers[i]);
        }
        lemma_sum_same(shorter, f, g);
        assert(f(numbers[numbers.len() - 1]) == g(numbers[numbers.len() - 1]));
    }
}

proof fn lemma_sum_remove(numbers: Seq<u32>, i: int, cost: spec_fn(u32) -> int)
    requires
        0 <= i < numbers.len(),
    ensures
        sum_of(numbers.remove(i), cost) == sum_of(numbers, cost) - cost(numbers[i]),
    decreases numbers.len(),
{
    let last = numbers.len() - 1;
    if i == last {
        assert(numbers.remove(i) =~= numbers.drop_last());
    } else {
        lemma_sum_remove(numbers.drop_last(), i, cost);
        assert(numbers.remove(i).drop_last() =~= numbers.drop_last().remove(i));
        assert(numbers.remove(i).last() == numbers.last());
    }
}

/// What some of the numbers cost is no more than what all cost.
proof fn lemma_sum_of_some(some: Seq<u32>, all: Seq<u32>, cost: spec_fn(u32) -> int)
    requires
        some.no_duplicates(),
        forall|i: int| 0 <= i < some.len() ==> all.contains(#[trigger] some[i]),
        forall|i: int| 0 <= i < all.len() ==> cost(#[trigger] all[i]) >= 0,
    ensures
        0 <= sum_of(some, cost) <= sum_of(all, cost),
    decreases all.len(),
{
    if some.len() == 0 {
        if all.len() > 0 {
            let shorter = all.drop_last();
            assert forall|i: int| 0 <= i < shorter.len() implies cost(#[trigger] shorter[i])
                >= 0 by {
                assert(shorter[i] == all[i]);
            }
            lemma_sum_of_some(some, shorter, cost);
            assert(cost(all[all.len() - 1]) >= 0);
        }
    } else {
        let last = some.last();
        assert(all.contains(some[some.len() - 1]));
        let w = choose|w: int| 0 <= w < all.len() && all[w] == last;
        let rest = all.remove(w);
        let shorter = some.drop_last();
        assert forall|i: int| 0 <= i < shorter.len() implies rest.contains(
            #[trigger] shorter[i],
        ) by {
            assert(shorter[i] == some[i]);
            assert(all.contains(some[i]));
            assert(some[i] != some[some.len() - 1]);
            let v = choose|v: int| 0 <= v < all.len() && all[v] == some[i];
            if v < w {
                assert(rest[v] == some[i]);
            } else {
                assert(rest[v - 1] == some[i]);
            }
        }
        assert forall|i: int| 0 <= i < rest.len() implies cost(#[trigger] rest[i]) >= 0 by {
            if i < w {
                assert(rest[i] == all[i]);
            } else {
                assert(rest[i] == all[i + 1]);
            }
        }
        lemma_sum_of_some(shorter, rest, cost);
        lemma_sum_remove(all, w, cost);
        assert(cost(all[w]) >= 0);
    }
}

proof fn lemma_parent_cost(index: &IdentifierIndex, parent: u32)
    requires
        index.fits(),
    ensures
        parent_cost(index, parent) >= 0,
{
    if index.located(OutlineId(parent)) is Some {
        lemma_parent_lines(index, OutlineId(parent));
    }
}

proof fn lemma_snippet_len(index: &IdentifierIndex, snippet: ScoredSnippet, style: SnippetStyle)
    requires
        snippet.fits(index),
    ensures
        snippet.len(index, style) >= 0,
{
    let bytes = index.source_of(snippet.definition_file as int);
    let range = match style {
        SnippetStyle::Signature => snippet.definition.signature_range,
        SnippetStyle::Definition => snippet.definition.item_range,
    };
    encode_utf8_valid_utf8(index.files@[snippet.definition_file as int].source@);
    lemma_boundary_in_range(bytes, range.start as int);
    lemma_boundary_in_range(bytes, range.end as int);
    lemma_line_start(bytes, range.start as int);
    lemma_line_end(bytes, range.end as int);
}

/// Whether lists of numbers are those of the taken snippets and of the parents paid
/// for, each once, and the budget spent covers the excerpt and all of them.
spec fn is_covered(
    index: &IdentifierIndex,
    excerpt: ExcerptRanges,
    plan: Plan,
    ids: Seq<u32>,
    paid: Seq<u32>,
) -> bool {
    &&& ids.no_duplicates()
    &&& forall|id: u32| #[trigger] plan.taken.contains_key(id) <==> ids.contains(id)
    &&& paid.no_duplicates()
    &&& forall|parent: u32| #[trigger] plan.parents.contains(parent) <==> paid.contains(parent)
    &&& excerpt.total_size() + taken_cost(plan.taken, ids) + parents_cost(index, paid)
        <= plan.used
}

/// Whether the parents of every taken snippet are paid for.
spec fn parents_paid(snippets: Seq<ScoredSnippet>, plan: Plan) -> bool {
    forall|id: u32, parent: u32| #[trigger]
        plan.taken.contains_key(id) && #[trigger] has_parent(
            snippets[plan.taken[id].scored_snippet as int],
            parent,
        ) ==> plan.parents.contains(parent)
}

/// Parents that are added to those paid for cost what is missing.
proof fn lemma_parents_added(
    index: &IdentifierIndex,
    parents: Seq<OutlineId>,
    paid: Set<u32>,
    list: Seq<u32>,
    n: nat,
) -> (longer: Seq<u32>)
    requires
        index.fits(),
        n <= parents.len(),
        list.no_duplicates(),
        forall|parent: u32| #[trigger] paid.contains(parent) <==> list.contains(parent),
    ensures
        longer.no_duplicates(),
        forall|parent: u32| #[trigger]
            with_parents(paid, parents, n).contains(parent) <==> longer.contains(parent),
        forall|parent: u32|
            #[trigger] paid.contains(parent) ==> with_parents(paid, parents, n).contains(parent),
        forall|k: int|
            0 <= k < n ==> with_parents(paid, parents, n).contains((#[trigger] parents[k]).0),
        parents_cost(index, longer) <= parents_cost(index, list) + missing_parents(
            index,
            parents,
            paid,
            n,
        ),
    decreases n,
{
    if n == 0 {
        list
    } else {
        let before = lemma_parents_added(index, parents, paid, list, (n - 1) as nat);
        let last = parents[n - 1];
        assert(last == OutlineId(last.0));
        lemma_parent_cost(index, last.0);
        let sofar = with_parents(paid, parents, (n - 1) as nat);
        let now = with_parents(paid, parents, n);
        assert(now == sofar.insert(last.0));
        assert forall|k: int| 0 <= k < n implies now.contains((#[trigger] parents[k]).0) by {
            if k < n - 1 {
                assert(sofar.contains(parents[k].0));
            }
        }
        if before.contains(last.0) {
            assert(sofar.contains(last.0));
            before
        } else {
            let longer = before.push(last.0);
            assert(longer.drop_last() =~= before);
            assert forall|parent: u32| #[trigger] now.contains(parent) <==> longer.contains(
                parent,
            ) by {
                if longer.contains(parent) {
                    let k = choose|k: int| 0 <= k < longer.len() && longer[k] == parent;
                    if k < before.len() {
                        assert(before[k] == parent);
                        assert(before.contains(parent));
                    }
                }
                if now.contains(parent) {
                    if parent == last.0 {
                        assert(longer[before.len() as int] == parent);
                    } else {
                        assert(sofar.contains(parent));
                        let k = choose|k: int| 0 <= k < before.len() && before[k] == parent;
                        assert(longer[k] == parent);
                    }
                }
            }
            assert(!sofar.contains(last.0));
            assert(!paid.contains(last.0));
            longer
        }
    }
}

/// Taking a snippet changes the cost of those taken by what it adds.
proof fn lemma_taken_added(
    taken: Map<u32, PlannedSnippet>,
    ids: Seq<u32>,
    id: u32,
    planned: PlannedSnippet,
) -> (longer: Seq<u32>)
    requires
        ids.no_duplicates(),
        forall|other: u32| #[trigger] taken.contains_key(other) <==> ids.contains(other),
    ensures
        longer.no_duplicates(),
        forall|other: u32| #[trigger]
            taken.insert(id, planned).contains_key(other) <==> longer.contains(other),
        taken_cost(taken.insert(id, planned), longer) == taken_cost(taken, ids)
            + planned.budget_used - (if taken.contains_key(id) {
            taken[id].budget_used as int
        } else {
            0
        }),
{
    let now = taken.insert(id, planned);
    let f = |other: u32| taken[other].budget_used as int;
    let g = |other: u32| now[other].budget_used as int;
    if taken.contains_key(id) {
        let w = choose|w: int| 0 <= w < ids.len() && ids[w] == id;
        let rest = ids.remove(w);
        assert forall|i: int| 0 <= i < rest.len() implies f(#[trigger] rest[i]) == g(rest[i]) by {
            if i < w {
                assert(rest[i] == ids[i]);
            } else {
                assert(rest[i] == ids[i + 1]);
            }
            assert(rest[i] != id);
        }
        lemma_sum_same(rest, f, g);
        lemma_sum_remove(ids, w, f);
        lemma_sum_remove(ids, w, g);
        ids
    } else {
        let longer = ids.push(id);
        assert(longer.drop_last() =~= ids);
        assert forall|i: int| 0 <= i < ids.len() implies f(#[trigger] ids[i]) == g(ids[i]) by {
            assert(ids.contains(ids[i]));
            assert(taken.contains_key(ids[i]));
        }
        lemma_sum_same(ids, f, g);
        assert forall|other: u32| #[trigger] now.contains_key(other) <==> longer.contains(
            other,
        ) by {
            if longer.contains(other) {
                let k = choose|k: int| 0 <= k < longer.len() && longer[k] == other;
                if k < ids.len() {
                    assert(ids[k] == other);
                    assert(ids.contains(other));
                }
            }
            if now.contains_key(other) {
                if other == id {
                    assert(longer[ids.len() as int] == other);
                } else {
                    assert(taken.contains_key(other));
                    let k = choose|k: int| 0 <= k < ids.len() && ids[k] == other;
                    assert(longer[k] == other);
                }
            }
        }
        assert(!ids.contains(id));
        longer
    }
}

/// Considering an entry keeps everything covered.
proof fn lemma_considered_covered(
    index: &IdentifierIndex,
    snippets: Seq<ScoredSnippet>,
    budget: int,
    excerpt: ExcerptRanges,
    plan: Plan,
    entry: (u32, u8),
    ids: Seq<u32>,
    paid: Seq<u32>,
) -> (r: (Seq<u32>, Seq<u32>))
    requires
        index.fits(),
        snippets.len() <= usize::MAX,
        forall|k: int| 0 <= k < snippets.len() ==> (#[trigger] snippets[k]).fits(index),
        snippet_from(snippets, entry.0, 0) is Some,
        is_covered(index, excerpt, plan, ids, paid),
        parents_paid(snippets, plan),
    ensures
        is_covered(index, excerpt, considered(index, snippets, budget, plan, entry), r.0, r.1),
        parents_paid(snippets, considered(index, snippets, budget, plan, entry)),
{
    let next = considered(index, snippets, budget, plan, entry);
    lemma_snippet_from(snippets, entry.0, 0);
    let k = snippet_from(snippets, entry.0, 0)->0;
    let snippet = snippets[k];
    let style = style_of(entry.1);
    assert(snippet.fits(index));
    if is_taken(index, snippet, style, plan, budget) {
        let parents = snippet.definition.parents@;
        let planned = PlannedSnippet {
            scored_snippet: k as usize,
            style,
            budget_used: snippet.len(index, style) as usize,
        };
        lemma_snippet_len(index, snippet, style);
        let more_ids = lemma_taken_added(plan.taken, ids, entry.0, planned);
        let more_paid = lemma_parents_added(index, parents, plan.parents, paid, parents.len());
        assert(next.taken == plan.taken.insert(entry.0, planned));
        assert(planned.budget_used <= snippet.len(index, style));
        assert forall|id: u32, parent: u32| #[trigger]
            next.taken.contains_key(id) && #[trigger] has_parent(
                snippets[next.taken[id].scored_snippet as int],
                parent,
            ) implies next.parents.contains(parent) by {
            if id == entry.0 {
                let j = choose|j: int| 0 <= j < parents.len() && parents[j] == OutlineId(parent);
                assert(next.parents.contains(parents[j].0));
            } else {
                assert(plan.taken.contains_key(id));
                assert(has_parent(snippets[plan.taken[id].scored_snippet as int], parent));
                assert(plan.parents.contains(parent));
            }
        }
        (more_ids, more_paid)
    } else {
        assert(next.taken == plan.taken && next.parents == plan.parents);
        assert forall|id: u32, parent: u32| #[trigger]
            next.taken.contains_key(id) && #[trigger] has_parent(
                snippets[next.taken[id].scored_snippet as int],
                parent,
            ) implies next.parents.contains(parent) by {
            assert(plan.taken.contains_key(id));
            assert(has_parent(snippets[plan.taken[id].scored_snippet as int], parent));
        }
        (ids, paid)
    }
}

/// Whatever is considered in the order of the priorities, the budget spent covers what
/// is shown.
proof fn lemma_plan_covered(
    index: &IdentifierIndex,
    snippets: Seq<ScoredSnippet>,
    budget: int,
    excerpt: ExcerptRanges,
    entries: Seq<(u32, u8)>,
) -> (r: (Seq<u32>, Seq<u32>))
    requires
        index.fits(),
        snippets.len() <= usize::MAX,
        forall|k: int| 0 <= k < snippets.len() ==> (#[trigger] snippets[k]).fits(index),
        greedy(index, snippets, budget, excerpt, entries),
    ensures
        is_covered(
            index,
            excerpt,
            plan_after(index, snippets, budget, excerpt, entries),
            r.0,
            r.1,
        ),
        parents_paid(snippets, plan_after(index, snippets, budget, excerpt, entries)),
        known_entries(snippets, plan_after(index, snippets, budget, excerpt, entries).queue),
    decreases entries.len(),
{
    if entries.len() == 0 {
        lemma_initial_queue(snippets, snippets.len());
        (Seq::empty(), Seq::empty())
    } else {
        let shorter = entries.drop_last();
        let (ids, paid) = lemma_plan_covered(index, snippets, budget, excerpt, shorter);
        let plan = plan_after(index, snippets, budget, excerpt, shorter);
        let entry = entries.last();
        assert(plan.queue.contains_key(entry));
        lemma_considered_covered(index, snippets, budget, excerpt, plan, entry, ids, paid)
    }
}

/// The taken snippets cost what the list of them shows.
proof fn lemma_shown_bytes(
    index: &IdentifierIndex,
    planned: Seq<PlannedSnippet>,
    snippets: Seq<ScoredSnippet>,
    taken: Map<u32, PlannedSnippet>,
)
    requires
        forall|j: int|
            0 <= j < planned.len() ==> taken.contains_pair(
                planned_id(snippets, #[trigger] planned[j]),
                planned[j],
            ),
        forall|j: int|
            0 <= j < planned.len() ==> costs_its_lines(index, snippets, #[trigger] planned[j]),
    ensures
        shown_bytes(index, snippets, planned) == taken_cost(
            taken,
            planned.map_values(|p: PlannedSnippet| planned_id(snippets, p)),
        ),
    decreases planned.len(),
{
    let id = |p: PlannedSnippet| planned_id(snippets, p);
    if planned.len() > 0 {
        let shorter = planned.drop_last();
        assert forall|j: int| 0 <= j < shorter.len() implies taken.contains_pair(
            planned_id(snippets, #[trigger] shorter[j]),
            shorter[j],
        ) by {
            assert(shorter[j] == planned[j]);
        }
        assert forall|j: int| 0 <= j < shorter.len() implies costs_its_lines(
            index,
            snippets,
            #[trigger] shorter[j],
        ) by {
            assert(shorter[j] == planned[j]);
        }
        lemma_shown_bytes(index, shorter, snippets, taken);
        assert(planned.map_values(id).drop_last() =~= shorter.map_values(id));
        let last = planned[planned.len() - 1];
        assert(taken.contains_pair(planned_id(snippets, last), last));
        assert(costs_its_lines(index, snippets, last));
    }
}

/// What a prompt shows is within what was spent: the excerpt, the lines of every
/// snippet taken, and the signatures of their parents, each parent counted once.
pub proof fn law_spent_covers_what_is_shown(
    index: &IdentifierIndex,
    snippets: Seq<ScoredSnippet>,
    budget: int,
    excerpt: ExcerptRanges,
    entries: Seq<(u32, u8)>,
    planned: Seq<PlannedSnippet>,
    parents: Seq<u32>,
)
    requires
        index.fits(),
        snippets.len() <= usize::MAX,
        forall|k: int| 0 <= k < snippets.len() ==> (#[trigger] snippets[k]).fits(index),
        greedy(index, snippets, budget, excerpt, entries),
        lists(
            planned,
            snippets,
            plan_after(index, snippets, budget, excerpt, entries).taken,
        ),
        forall|j: int|
            0 <= j < planned.len() ==> costs_its_lines(index, snippets, #[trigger] planned[j]),
        parents.no_duplicates(),
        forall|i: int|
            0 <= i < parents.len() ==> exists|j: int|
                0 <= j < planned.len() && has_parent(
                    snippets[(#[trigger] planned[j]).scored_snippet as int],
                    #[trigger] parents[i],
                ),
    ensures
        excerpt.total_size() + shown_bytes(index, snippets, planned) + parents_cost(index, parents)
            <= plan_after(index, snippets, budget, excerpt, entries).used,
{
    let plan = plan_after(index, snippets, budget, excerpt, entries);
    let (ids, paid) = lemma_plan_covered(index, snippets, budget, excerpt, entries);
    lemma_shown_bytes(index, planned, snippets, plan.taken);
    let own_ids = planned.map_values(|p: PlannedSnippet| planned_id(snippets, p));
    let cost = |id: u32| plan.taken[id].budget_used as int;
    assert(own_ids.no_duplicates()) by {
        assert forall|i: int, j: int|
            0 <= i < own_ids.len() && 0 <= j < own_ids.len() && i != j implies own_ids[i]
            != own_ids[j] by {
            if i < j {
                assert(planned_id(snippets, planned[i]) != planned_id(snippets, planned[j]));
            } else {
                assert(planned_id(snippets, planned[j]) != planned_id(snippets, planned[i]));
            }
        }
    }
    assert forall|i: int| 0 <= i < own_ids.len() implies ids.contains(#[trigger] own_ids[i]) by {
        assert(plan.taken.contains_pair(planned_id(snippets, planned[i]), planned[i]));
        assert(plan.taken.contains_key(own_ids[i]));
    }
    lemma_sum_of_some(own_ids, ids, cost);
    let parent_bytes = |parent: u32| parent_cost(index, parent);
    assert forall|i: int| 0 <= i < parents.len() implies paid.contains(#[trigger] parents[i]) by {
        let j = choose|j: int|
            0 <= j < planned.len() && has_parent(
                snippets[(#[trigger] planned[j]).scored_snippet as int],
                parents[i],
            );
        let id = planned_id(snippets, planned[j]);
        assert(plan.taken.contains_pair(id, planned[j]));
        assert(plan.taken.contains_key(id));
        assert(has_parent(snippets[plan.taken[id].scored_snippet as int], parents[i]));
        assert(plan.parents.contains(parents[i]));
    }
    assert forall|i: int| 0 <= i < paid.len() implies parent_bytes(#[trigger] paid[i]) >= 0 by {
        lemma_parent_cost(index, paid[i]);
    }
    lemma_sum_of_some(parents, paid, parent_bytes);
}

/// Whether no two snippets have the same number.
pub open spec fn ids_differ(snippets: Seq<ScoredSnippet>) -> bool {
    forall|j: int, k: int|
        0 <= j < k < snippets.len() ==> (#[trigger] snippets[j]).definition.id != (
        #[trigger] snippets[k]).definition.id
}

/// The snippet with a number is found by it.
proof fn lemma_found_by_id(snippets: Seq<ScoredSnippet>, k: int)
    requires
        ids_differ(snippets),
        0 <= k < snippets.len(),
    ensures
        snippet_from(snippets, snippets[k].definition.id.0, 0) == Some(k),
{
    let id = snippets[k].definition.id.0;
    lemma_snippet_from(snippets, id, 0);
    assert(snippets[k].definition.id.0 == id);
    let j = snippet_from(snippets, id, 0)->0;
    assert(snippets[j].definition.id == snippets[k].definition.id);
}

/// Before anything is considered, every snippet waits in both styles, its signature by
/// the density of the signature and its definition by that of the definition, and
/// nothing else does.
pub proof fn law_queue_starts_with_densities(
    snippets: Seq<ScoredSnippet>,
    excerpt: ExcerptRanges,
)
    requires
        ids_differ(snippets),
    ensures
        forall|k: int|
            0 <= k < snippets.len() ==> {
                let id = (#[trigger] snippets[k]).definition.id.0;
                let queue = initial_plan(snippets, excerpt).queue;
                &&& queue.contains_pair((id, 0u8), snippets[k].signature_density)
                &&& queue.contains_pair((id, 1u8), snippets[k].definition_density)
            },
        forall|entry: (u32, u8)| #[trigger]
            initial_plan(snippets, excerpt).queue.contains_key(entry) ==> entry.1 <= 1 && exists|
                k: int,
            |
                0 <= k < snippets.len() && (#[trigger] snippets[k]).definition.id.0 == entry.0,
{
    lemma_initial_densities(snippets, snippets.len());
}

proof fn lemma_initial_densities(snippets: Seq<ScoredSnippet>, n: nat)
    requires
        ids_differ(snippets),
        n <= snippets.len(),
    ensures
        forall|k: int|
            0 <= k < n ==> {
                let id = (#[trigger] snippets[k]).definition.id.0;
                let queue = initial_queue(snippets, n);
                &&& queue.contains_pair((id, 0u8), snippets[k].signature_density)
                &&& queue.contains_pair((id, 1u8), snippets[k].definition_density)
            },
        forall|entry: (u32, u8)| #[trigger]
            initial_queue(snippets, n).contains_key(entry) ==> entry.1 <= 1 && exists|k: int|
                0 <= k < n && (#[trigger] snippets[k]).definition.id.0 == entry.0,
    decreases n,
{
    if n > 0 {
        lemma_initial_densities(snippets, (n - 1) as nat);
        let before = initial_queue(snippets, (n - 1) as nat);
        let queue = initial_queue(snippets, n);
        let last = snippets[n - 1];
        assert forall|k: int| 0 <= k < n implies {
            let id = (#[trigger] snippets[k]).definition.id.0;
            &&& queue.contains_pair((id, 0u8), snippets[k].signature_density)
            &&& queue.contains_pair((id, 1u8), snippets[k].definition_density)
        } by {
            if k < n - 1 {
                assert(snippets[k].definition.id != last.definition.id);
                assert(snippets[k].definition.id.0 != last.definition.id.0);
            }
        }
        assert forall|entry: (u32, u8)| #[trigger] queue.contains_key(entry) implies entry.1 <= 1
            && exists|k: int|
            0 <= k < n && (#[trigger] snippets[k]).definition.id.0 == entry.0 by {
            if before.contains_key(entry) {
                let k = choose|k: int|
                    0 <= k < n - 1 && (#[trigger] snippets[k]).definition.id.0 == entry.0;
                assert(snippets[k].definition.id.0 == entry.0);
            } else {
                assert(last.definition.id.0 == entry.0);
            }
        }
    }
}

/// Whether an entry waits with the priority that is due to it: a signature with its
/// density, a definition with its density, or, once the signature is taken and the
/// definition shows more, with the density of what it adds.
pub open spec fn has_due_priority(
    index: &IdentifierIndex,
    snippets: Seq<ScoredSnippet>,
    plan: Plan,
    k: int,
    code: u8,
) -> bool {
    let snippet = snippets[k];
    let id = snippet.definition.id.0;
    plan.queue[(id, code)] == if code == 0 {
        snippet.signature_density
    } else if plan.taken.contains_key(id) && plan.taken[id].style is Signature && snippet.len(
        index,
        SnippetStyle::Definition,
    ) > snippet.len(index, SnippetStyle::Signature) {
        snippet.upgrade_density
    } else {
        snippet.definition_density
    }
}

/// At any time, what waits waits with the priority that is due to it.
pub proof fn law_priorities(
    index: &IdentifierIndex,
    snippets: Seq<ScoredSnippet>,
    budget: int,
    excerpt: ExcerptRanges,
    entries: Seq<(u32, u8)>,
)
    requires
        ids_differ(snippets),
        forall|k: int| 0 <= k < snippets.len() ==> (#[trigger] snippets[k]).fits(index),
        forall|k: int|
            0 <= k < snippets.len() ==> 0 <= (#[trigger] snippets[k]).len(
                index,
                SnippetStyle::Definition,
            ) <= usize::MAX,
        greedy(index, snippets, budget, excerpt, entries),
    ensures
        ({
            let plan = plan_after(index, snippets, budget, excerpt, entries);
            &&& forall|entry: (u32, u8)| #[trigger]
                plan.queue.contains_key(entry) ==> entry.1 <= 1 && exists|k: int|
                    0 <= k < snippets.len() && (#[trigger] snippets[k]).definition.id.0 == entry.0
            &&& forall|k: int, code: u8|
                0 <= k < snippets.len() && plan.queue.contains_key(
                    ((#[trigger] snippets[k]).definition.id.0, code),
                ) ==> #[trigger] has_due_priority(index, snippets, plan, k, code)
        }),
    decreases entries.len(),
{
    let plan = plan_after(index, snippets, budget, excerpt, entries);
    if entries.len() == 0 {
        law_queue_starts_with_densities(snippets, excerpt);
        assert forall|k: int, code: u8|
            0 <= k < snippets.len() && plan.queue.contains_key(
                ((#[trigger] snippets[k]).definition.id.0, code),
            ) implies #[trigger] has_due_priority(index, snippets, plan, k, code) by {
            let id = snippets[k].definition.id.0;
            assert(plan.queue.contains_pair((id, 0u8), snippets[k].signature_density));
            assert(plan.queue.contains_pair((id, 1u8), snippets[k].definition_density));
            assert(code <= 1);
        }
    } else {
        let shorter = entries.drop_last();
        law_priorities(index, snippets, budget, excerpt, shorter);
        let before = plan_after(index, snippets, budget, excerpt, shorter);
        let entry = entries.last();
        assert(before.queue.contains_key(entry));
        let e = choose|k: int|
            0 <= k < snippets.len() && (#[trigger] snippets[k]).definition.id.0 == entry.0;
        lemma_found_by_id(snippets, e);
        assert(plan == considered(index, snippets, budget, before, entry));
        assert forall|other: (u32, u8)| #[trigger] plan.queue.contains_key(other) implies other.1
            <= 1 && exists|k: int|
            0 <= k < snippets.len() && (#[trigger] snippets[k]).definition.id.0 == other.0 by {
            if before.queue.contains_key(other) {
            } else {
                assert(other == (entry.0, 1u8));
                assert(snippets[e].definition.id.0 == other.0);
            }
        }
        assert forall|k: int, code: u8|
            0 <= k < snippets.len() && plan.queue.contains_key(
                ((#[trigger] snippets[k]).definition.id.0, code),
            ) implies #[trigger] has_due_priority(index, snippets, plan, k, code) by {
            let id = snippets[k].definition.id.0;
            if k != e {
                if k < e {
                    assert(snippets[k].definition.id != snippets[e].definition.id);
                } else {
                    assert(snippets[e].definition.id != snippets[k].definition.id);
                }
                assert(id != entry.0);
                assert(before.queue.contains_key((id, code)));
                assert(has_due_priority(index, snippets, before, k, code));
            } else {
                assert(plan.queue.contains_key((id, code)));
                if is_taken(index, snippets[e], style_of(entry.1), before, budget) {
                    if entry.1 == 0 {
                        if code == 1 && snippets[e].len(index, SnippetStyle::Definition)
                            <= snippets[e].len(index, SnippetStyle::Signature) {
                            assert(has_due_priority(index, snippets, before, k, code));
                        }
                    } else {
                        assert(has_due_priority(index, snippets, before, k, code));
                    }
                } else {
                    assert(has_due_priority(index, snippets, before, k, code));
                }
            }
        }
    }
}

/// What is considered first has the greatest density of all.
pub proof fn law_densest_comes_first(
    index: &IdentifierIndex,
    snippets: Seq<ScoredSnippet>,
    budget: int,
    excerpt: ExcerptRanges,
    entries: Seq<(u32, u8)>,
    j: int,
)
    requires
        ids_differ(snippets),
        greedy(index, snippets, budget, excerpt, entries),
        entries.len() > 0,
        0 <= j < snippets.len(),
    ensures
        exists|k: int|
            {
                let density = if entries[0].1 == 0 {
                    snippets[k].signature_density
                } else {
                    snippets[k].definition_density
                };
                &&& 0 <= k < snippets.len()
                &&& (#[trigger] snippets[k]).definition.id.0 == entries[0].0
                &&& snippets[j].signature_density <= density
                &&& snippets[j].definition_density <= density
            },
{
    lemma_greedy_start(index, snippets, budget, excerpt, entries);
    law_queue_starts_with_densities(snippets, excerpt);
    let queue = initial_plan(snippets, excerpt).queue;
    let first = entries[0];
    assert(queue.contains_key(first));
    let k = choose|k: int|
        0 <= k < snippets.len() && (#[trigger] snippets[k]).definition.id.0 == first.0;
    let id = snippets[j].definition.id.0;
    assert(queue.contains_pair((id, 0u8), snippets[j].signature_density));
    assert(queue.contains_pair((id, 1u8), snippets[j].definition_density));
    assert(queue.contains_key((id, 0u8)) && queue.contains_key((id, 1u8)));
    assert(queue.contains_pair((first.0, 0u8), snippets[k].signature_density));
    assert(queue.contains_pair((first.0, 1u8), snippets[k].definition_density));
    assert(first == (first.0, first.1));
}

proof fn lemma_greedy_start(
    index: &IdentifierIndex,
    snippets: Seq<ScoredSnippet>,
    budget: int,
    excerpt: ExcerptRanges,
    entries: Seq<(u32, u8)>,
)
    requires
        greedy(index, snippets, budget, excerpt, entries),
        entries.len() > 0,
    ensures
        is_greatest(initial_plan(snippets, excerpt).queue, entries[0]),
        greedy(index, snippets, budget, excerpt, entries.take(1)),
        plan_after(index, snippets, budget, excerpt, entries.take(1)) == considered(
            index,
            snippets,
            budget,
            initial_plan(snippets, excerpt),
            entries[0],
        ),
    decreases entries.len(),
{
    if entries.len() == 1 {
        assert(entries.take(1) =~= entries);
        assert(entries.drop_last() =~= Seq::<(u32, u8)>::empty());
        assert(plan_after(index, snippets, budget, excerpt, entries.drop_last()) == initial_plan(
            snippets,
            excerpt,
        ));
    } else {
        assert(entries.drop_last().take(1) =~= entries.take(1));
        lemma_greedy_start(index, snippets, budget, excerpt, entries.drop_last());
    }
}

/// What is taken stays taken.
proof fn lemma_taken_stays(
    index: &IdentifierIndex,
    snippets: Seq<ScoredSnippet>,
    budget: int,
    excerpt: ExcerptRanges,
    entries: Seq<(u32, u8)>,
    n: int,
    id: u32,
)
    requires
        0 <= n <= entries.len(),
        plan_after(index, snippets, budget, excerpt, entries.take(n)).taken.contains_key(id),
    ensures
        plan_after(index, snippets, budget, excerpt, entries).taken.contains_key(id),
    decreases entries.len(),
{
    if n == entries.len() {
        assert(entries.take(n) =~= entries);
    } else {
        assert(entries.drop_last().take(n) =~= entries.take(n));
        lemma_taken_stays(index, snippets, budget, excerpt, entries.drop_last(), n, id);
    }
}

/// The snippet whose signature is denser than everything else is shown, if the budget
/// covers the excerpt, the signature and the signatures of its parents. So where only
/// one fits, it is that one.
pub proof fn law_densest_signature_is_shown(
    index: &IdentifierIndex,
    snippets: Seq<ScoredSnippet>,
    budget: int,
    excerpt: ExcerptRanges,
    entries: Seq<(u32, u8)>,
    planned: Seq<PlannedSnippet>,
    k: int,
)
    requires
        ids_differ(snippets),
        greedy(index, snippets, budget, excerpt, entries),
        plan_after(index, snippets, budget, excerpt, entries).queue == no_entries(),
        lists(
            planned,
            snippets,
            plan_after(index, snippets, budget, excerpt, entries).taken,
        ),
        0 <= k < snippets.len(),
        snippets[k].definition_density < snippets[k].signature_density,
        forall|j: int|
            0 <= j < snippets.len() && j != k ==> {
                &&& (#[trigger] snippets[j]).signature_density < snippets[k].signature_density
                &&& snippets[j].definition_density < snippets[k].signature_density
            },
        excerpt.total_size() + snippets[k].len(index, SnippetStyle::Signature) + parents_cost(
            index,
            snippets[k].definition.parents@.map_values(|parent: OutlineId| parent.0),
        ) <= budget,
    ensures
        exists|j: int|
            0 <= j < planned.len() && (#[trigger] planned[j]).scored_snippet == k,
{
    let id = snippets[k].definition.id.0;
    let start = initial_plan(snippets, excerpt);
    law_queue_starts_with_densities(snippets, excerpt);
    assert(start.queue.contains_pair((id, 0u8), snippets[k].signature_density));
    if entries.len() == 0 {
        assert(start.queue.contains_key((id, 0u8)));
        assert(!no_entries().contains_key((id, 0u8)));
    }
    lemma_greedy_start(index, snippets, budget, excerpt, entries);
    let first = entries[0];
    assert(start.queue.contains_key(first));
    let f = choose|f: int|
        0 <= f < snippets.len() && (#[trigger] snippets[f]).definition.id.0 == first.0;
    assert(start.queue.contains_pair((first.0, 0u8), snippets[f].signature_density));
    assert(start.queue.contains_pair((first.0, 1u8), snippets[f].definition_density));
    assert(start.queue.contains_key((id, 0u8)));
    assert(start.queue[(id, 0u8)] <= start.queue[first]);
    assert(first == (first.0, first.1));
    assert(f == k && first == (id, 0u8));
    lemma_found_by_id(snippets, k);
    let parents = snippets[k].definition.parents@;
    lemma_all_missing(index, parents, parents.len());
    assert(parents.take(parents.len() as int) =~= parents);
    assert(is_taken(index, snippets[k], SnippetStyle::Signature, start, budget));
    lemma_taken_stays(index, snippets, budget, excerpt, entries, 1, id);
    let j = choose|j: int|
        0 <= j < planned.len() && planned_id(snippets, #[trigger] planned[j]) == id;
    let at = planned[j].scored_snippet as int;
    if at < k {
        assert(snippets[at].definition.id != snippets[k].definition.id);
    } else if k < at {
        assert(snippets[k].definition.id != snippets[at].definition.id);
    }
}

/// Where no parent is paid for, all are missing.
proof fn lemma_all_missing(index: &IdentifierIndex, parents: Seq<OutlineId>, n: nat)
    requires
        n <= parents.len(),
    ensures
        missing_parents(index, parents, Set::empty(), n) == parents_cost(
            index,
            parents.take(n as int).map_values(|parent: OutlineId| parent.0),
        ),
    decreases n,
{
    let number = |parent: OutlineId| parent.0;
    if n > 0 {
        lemma_all_missing(index, parents, (n - 1) as nat);
        let numbers = parents.take(n as int).map_values(number);
        assert(numbers.drop_last() =~= parents.take(n - 1).map_values(number));
        assert(numbers.last() == parents[n - 1].0);
        assert(parents[n - 1] == OutlineId(parents[n - 1].0));
    } else {
        assert(parents.take(0).map_values(number).len() == 0);
    }
}

/// The numbers of those among the first `n` parents that are not paid for.
spec fn unpaid(parents: Seq<OutlineId>, paid: Set<u32>, n: nat) -> Seq<u32>
    decreases n,
{
    if n == 0 {
        Seq::empty()
    } else if paid.contains(parents[n - 1].0) {
        unpaid(parents, paid, (n - 1) as nat)
    } else {
        unpaid(parents, paid, (n - 1) as nat).push(parents[n - 1].0)
    }
}

/// The numbers of those among the first `n` parents that come to be paid for.
spec fn newly_paid(parents: Seq<OutlineId>, before: Set<u32>, after: Set<u32>, n: nat) -> Seq<u32>
    decreases n,
{
    if n == 0 {
        Seq::empty()
    } else if !before.contains(parents[n - 1].0) && after.contains(parents[n - 1].0) {
        newly_paid(parents, before, after, (n - 1) as nat).push(parents[n - 1].0)
    } else {
        newly_paid(parents, before, after, (n - 1) as nat)
    }
}

proof fn lemma_unpaid(
    index: &IdentifierIndex,
    parents: Seq<OutlineId>,
    before: Set<u32>,
    after: Set<u32>,
    n: nat,
)
    requires
        n <= parents.len(),
        before.subset_of(after),
    ensures
        missing_parents(index, parents, before, n) == parents_cost(
            index,
            unpaid(parents, before, n),
        ),
        missing_parents(index, parents, before, n) == missing_parents(index, parents, after, n)
            + parents_cost(index, newly_paid(parents, before, after, n)),
        forall|x: u32| #[trigger]
            newly_paid(parents, before, after, n).contains(x) ==> !before.contains(x)
                && after.contains(x) && exists|j: int|
                0 <= j < n && (#[trigger] parents[j]).0 == x,
        forall|j: int|
            0 <= j < n && !before.contains((#[trigger] parents[j]).0) ==> unpaid(
                parents,
                before,
                n,
            ).contains(parents[j].0),
        parents.no_duplicates() ==> newly_paid(parents, before, after, n).no_duplicates(),
    decreases n,
{
    if n > 0 {
        let m = (n - 1) as nat;
        lemma_unpaid(index, parents, before, after, m);
        let last = parents[n - 1];
        assert(last == OutlineId(last.0));
        let u = unpaid(parents, before, n);
        let p = newly_paid(parents, before, after, n);
        let q = newly_paid(parents, before, after, m);
        if !before.contains(last.0) {
            assert(u.drop_last() =~= unpaid(parents, before, m));
            if after.contains(last.0) {
                assert(p.drop_last() =~= q);
            }
        }
        assert forall|x: u32| #[trigger] p.contains(x) implies !before.contains(x)
            && after.contains(x) && exists|j: int|
            0 <= j < n && (#[trigger] parents[j]).0 == x by {
            if q.contains(x) {
                let j = choose|j: int| 0 <= j < m && (#[trigger] parents[j]).0 == x;
                assert(parents[j].0 == x);
            } else {
                let k = choose|k: int| 0 <= k < p.len() && p[k] == x;
                if k < q.len() {
                    assert(q[k] == x);
                }
                assert(last.0 == x);
            }
        }
        assert forall|j: int| 0 <= j < n && !before.contains((#[trigger] parents[j]).0) implies
            u.contains(parents[j].0) by {
            if j < m {
                let v = unpaid(parents, before, m);
                assert(v.contains(parents[j].0));
                let k = choose|k: int| 0 <= k < v.len() && v[k] == parents[j].0;
                assert(u[k] == parents[j].0);
            } else {
                assert(u[u.len() - 1] == last.0);
            }
        }
        if parents.no_duplicates() && p != q {
            assert forall|a: int, b: int| 0 <= a < p.len() && 0 <= b < p.len() && a != b implies p[a]
                != p[b] by {
                if a == q.len() {
                    assert(q.contains(q[b]));
                    let j = choose|j: int| 0 <= j < m && (#[trigger] parents[j]).0 == q[b];
                    assert(parents[j] != last);
                } else if b == q.len() {
                    assert(q.contains(q[a]));
                    let j = choose|j: int| 0 <= j < m && (#[trigger] parents[j]).0 == q[a];
                    assert(parents[j] != last);
                } else {
                    assert(p[a] == q[a] && p[b] == q[b]);
                }
            }
        }
    }
}

proof fn lemma_with_parents(paid: Set<u32>, parents: Seq<OutlineId>, n: nat)
    requires
        n <= parents.len(),
    ensures
        paid.subset_of(with_parents(paid, parents, n)),
        forall|x: u32| #[trigger]
            with_parents(paid, parents, n).contains(x) ==> paid.contains(x) || exists|j: int|
                0 <= j < n && (#[trigger] parents[j]).0 == x,
        forall|j: int|
            0 <= j < n ==> with_parents(paid, parents, n).contains((#[trigger] parents[j]).0),
    decreases n,
{
    if n > 0 {
        lemma_with_parents(paid, parents, (n - 1) as nat);
        let before = with_parents(paid, parents, (n - 1) as nat);
        let now = with_parents(paid, parents, n);
        assert forall|x: u32| #[trigger] now.contains(x) implies paid.contains(x) || exists|j: int|
            0 <= j < n && (#[trigger] parents[j]).0 == x by {
            if before.contains(x) {
                if !paid.contains(x) {
                    let j = choose|j: int| 0 <= j < n - 1 && (#[trigger] parents[j]).0 == x;
                    assert(parents[j].0 == x);
                }
            } else {
                assert(parents[n - 1].0 == x);
            }
        }
        assert forall|j: int| 0 <= j < n implies now.contains((#[trigger] parents[j]).0) by {
            if j < n - 1 {
                assert(before.contains(parents[j].0));
            }
        }
    }
}

/// What one snippet saves because another pays for parents is no more than the other
/// pays for them.
proof fn lemma_saved(
    index: &IdentifierIndex,
    own: Seq<OutlineId>,
    other: Seq<OutlineId>,
    paid: Set<u32>,
)
    requires
        index.fits(),
        own.no_duplicates(),
    ensures
        missing_parents(index, own, paid, own.len()) <= missing_parents(
            index,
            own,
            with_parents(paid, other, other.len()),
            own.len(),
        ) + missing_parents(index, other, paid, other.len()),
{
    let after = with_parents(paid, other, other.len());
    lemma_with_parents(paid, other, other.len());
    lemma_unpaid(index, own, paid, after, own.len());
    lemma_unpaid(index, other, paid, after, other.len());
    let saved = newly_paid(own, paid, after, own.len());
    let spent = unpaid(other, paid, other.len());
    let cost = |parent: u32| parent_cost(index, parent);
    assert forall|i: int| 0 <= i < saved.len() implies spent.contains(#[trigger] saved[i]) by {
        assert(saved.contains(saved[i]));
        assert(after.contains(saved[i]));
        let j = choose|j: int| 0 <= j < other.len() && (#[trigger] other[j]).0 == saved[i];
        assert(spent.contains(other[j].0));
    }
    assert forall|i: int| 0 <= i < spent.len() implies cost(#[trigger] spent[i]) >= 0 by {
        lemma_parent_cost(index, spent[i]);
    }
    lemma_sum_of_some(saved, spent, cost);
}

/// Whether a snippet that is not taken does not fit: its signature and those of its
/// missing parents exceed what is left of the budget.
pub open spec fn exceeds_budget(
    index: &IdentifierIndex,
    snippet: ScoredSnippet,
    plan: Plan,
    budget: int,
) -> bool {
    plan.used + snippet.len(index, SnippetStyle::Signature) + missing_parents(
        index,
        snippet.definition.parents@,
        plan.parents,
        snippet.definition.parents@.len(),
    ) > budget
}

/// Nothing that fits is left out: in the end the signature of a snippet that is not
/// shown, with those of its parents that are not paid for, exceeds what is left of the
/// budget.
pub proof fn law_nothing_that_fits_is_left_out(
    index: &IdentifierIndex,
    snippets: Seq<ScoredSnippet>,
    budget: int,
    excerpt: ExcerptRanges,
    entries: Seq<(u32, u8)>,
    planned: Seq<PlannedSnippet>,
    k: int,
)
    requires
        index.fits(),
        ids_differ(snippets),
        snippets.len() <= usize::MAX,
        forall|j: int| 0 <= j < snippets.len() ==> (#[trigger] snippets[j]).fits(index),
        greedy(index, snippets, budget, excerpt, entries),
        plan_after(index, snippets, budget, excerpt, entries).queue == no_entries(),
        lists(
            planned,
            snippets,
            plan_after(index, snippets, budget, excerpt, entries).taken,
        ),
        0 <= k < snippets.len(),
        snippets[k].definition.parents@.no_duplicates(),
        forall|j: int|
            0 <= j < planned.len() ==> (#[trigger] planned[j]).scored_snippet != k,
    ensures
        exceeds_budget(
            index,
            snippets[k],
            plan_after(index, snippets, budget, excerpt, entries),
            budget,
        ),
{
    let plan = plan_after(index, snippets, budget, excerpt, entries);
    let id = snippets[k].definition.id.0;
    lemma_waits_or_settled(index, snippets, budget, excerpt, entries, k);
    assert(!no_entries().contains_key((id, 0u8)));
    if plan.taken.contains_key(id) {
        let j = choose|j: int|
            0 <= j < planned.len() && planned_id(snippets, #[trigger] planned[j]) == id;
        let at = planned[j].scored_snippet as int;
        if at < k {
            assert(snippets[at].definition.id != snippets[k].definition.id);
        } else if k < at {
            assert(snippets[k].definition.id != snippets[at].definition.id);
        }
    }
}

/// A signature waits, is taken, or does not fit.
proof fn lemma_waits_or_settled(
    index: &IdentifierIndex,
    snippets: Seq<ScoredSnippet>,
    budget: int,
    excerpt: ExcerptRanges,
    entries: Seq<(u32, u8)>,
    k: int,
)
    requires
        index.fits(),
        ids_differ(snippets),
        forall|j: int| 0 <= j < snippets.len() ==> (#[trigger] snippets[j]).fits(index),
        greedy(index, snippets, budget, excerpt, entries),
        0 <= k < snippets.len(),
        snippets[k].definition.parents@.no_duplicates(),
    ensures
        ({
            let plan = plan_after(index, snippets, budget, excerpt, entries);
            let id = snippets[k].definition.id.0;
            &&& known_entries(snippets, plan.queue)
            &&& plan.queue.contains_key((id, 0u8)) || plan.taken.contains_key(id)
                || exceeds_budget(index, snippets[k], plan, budget)
        }),
    decreases entries.len(),
{
    let id = snippets[k].definition.id.0;
    lemma_found_by_id(snippets, k);
    if entries.len() == 0 {
        lemma_initial_queue(snippets, snippets.len());
        law_queue_starts_with_densities(snippets, excerpt);
        assert(initial_plan(snippets, excerpt).queue.contains_pair(
            (id, 0u8),
            snippets[k].signature_density,
        ));
    } else {
        let shorter = entries.drop_last();
        lemma_waits_or_settled(index, snippets, budget, excerpt, shorter, k);
        let before = plan_after(index, snippets, budget, excerpt, shorter);
        let entry = entries.last();
        assert(before.queue.contains_key(entry));
        let e = snippet_from(snippets, entry.0, 0)->0;
        lemma_snippet_from(snippets, entry.0, 0);
        let snippet = snippets[e];
        let style = style_of(entry.1);
        assert(snippet.fits(index));
        lemma_snippet_len(index, snippet, style);
        lemma_missing_parents(
            index,
            snippet.definition.parents@,
            before.parents,
            snippet.definition.parents@.len(),
        );
        lemma_saved(
            index,
            snippets[k].definition.parents@,
            snippet.definition.parents@,
            before.parents,
        );
        if entry == (id, 0u8) {
            assert(e == k);
        }
    }
}

/// A definition that was not taken in place of its signature does not fit: what it adds
/// exceeds what is left of the budget.
pub proof fn law_definitions_replace_signatures(
    index: &IdentifierIndex,
    snippets: Seq<ScoredSnippet>,
    budget: int,
    excerpt: ExcerptRanges,
    entries: Seq<(u32, u8)>,
    planned: Seq<PlannedSnippet>,
    j: int,
)
    requires
        index.fits(),
        ids_differ(snippets),
        snippets.len() <= usize::MAX,
        forall|k: int| 0 <= k < snippets.len() ==> (#[trigger] snippets[k]).fits(index),
        forall|k: int|
            0 <= k < snippets.len() ==> (#[trigger] snippets[k]).len(
                index,
                SnippetStyle::Definition,
            ) <= usize::MAX,
        greedy(index, snippets, budget, excerpt, entries),
        plan_after(index, snippets, budget, excerpt, entries).queue == no_entries(),
        lists(
            planned,
            snippets,
            plan_after(index, snippets, budget, excerpt, entries).taken,
        ),
        0 <= j < planned.len(),
        planned[j].style is Signature,
    ensures
        ({
            let snippet = snippets[planned[j].scored_snippet as int];
            let more = snippet.len(index, SnippetStyle::Definition) - snippet.len(
                index,
                SnippetStyle::Signature,
            );
            more > 0 ==> plan_after(index, snippets, budget, excerpt, entries).used + more > budget
        }),
{
    let id = planned_id(snippets, planned[j]);
    let plan = plan_after(index, snippets, budget, excerpt, entries);
    assert(plan.taken.contains_pair(id, planned[j]));
    let (ids, paid) = lemma_plan_covered(index, snippets, budget, excerpt, entries);
    lemma_upgrade_waits(
        index,
        snippets,
        budget,
        excerpt,
        entries,
        planned[j].scored_snippet as int,
    );
    assert(!no_entries().contains_key((id, 1u8)));
}

proof fn lemma_upgrade_waits(
    index: &IdentifierIndex,
    snippets: Seq<ScoredSnippet>,
    budget: int,
    excerpt: ExcerptRanges,
    entries: Seq<(u32, u8)>,
    k: int,
)
    requires
        index.fits(),
        ids_differ(snippets),
        snippets.len() <= usize::MAX,
        forall|k: int| 0 <= k < snippets.len() ==> (#[trigger] snippets[k]).fits(index),
        forall|k: int|
            0 <= k < snippets.len() ==> (#[trigger] snippets[k]).len(
                index,
                SnippetStyle::Definition,
            ) <= usize::MAX,
        greedy(index, snippets, budget, excerpt, entries),
        0 <= k < snippets.len(),
    ensures
        ({
            let plan = plan_after(index, snippets, budget, excerpt, entries);
            let id = snippets[k].definition.id.0;
            let more = snippets[k].len(index, SnippetStyle::Definition) - snippets[k].len(
                index,
                SnippetStyle::Signature,
            );
            plan.taken.contains_key(id) ==> {
                &&& plan.taken[id].budget_used == snippets[k].len(index, plan.taken[id].style)
                &&& plan.taken[id].style is Signature && more > 0 ==> plan.queue.contains_key(
                    (id, 1u8),
                ) || plan.used + more > budget
            }
        }),
    decreases entries.len(),
{
    let id = snippets[k].definition.id.0;
    lemma_found_by_id(snippets, k);
    if entries.len() > 0 {
        let shorter = entries.drop_last();
        lemma_upgrade_waits(index, snippets, budget, excerpt, shorter, k);
        let (ids, paid) = lemma_plan_covered(index, snippets, budget, excerpt, shorter);
        let before = plan_after(index, snippets, budget, excerpt, shorter);
        let entry = entries.last();
        assert(before.queue.contains_key(entry));
        assert(entry.1 <= 1);
        let e = snippet_from(snippets, entry.0, 0)->0;
        lemma_snippet_from(snippets, entry.0, 0);
        let snippet = snippets[e];
        assert(snippet.fits(index));
        assert(snippets[k].fits(index));
        lemma_snippet_len(index, snippet, SnippetStyle::Signature);
        lemma_snippet_len(index, snippet, SnippetStyle::Definition);
        lemma_missing_parents(
            index,
            snippet.definition.parents@,
            before.parents,
            snippet.definition.parents@.len(),
        );
        if entry.0 == id {
            assert(e == k);
            assert(entry == (id, 0u8) || entry == (id, 1u8));
            if before.taken.contains_key(id) {
                if before.taken[id].style is Signature {
                    let scored = before.taken[id].scored_snippet as int;
                    lemma_taken_is_found(index, snippets, budget, excerpt, shorter, id);
                    lemma_nothing_missing(
                        index,
                        snippets,
                        before,
                        k,
                        snippet.definition.parents@.len(),
                    );
                }
            }
        }
    }
}

/// What is taken under a number is the snippet with that number.
proof fn lemma_taken_is_found(
    index: &IdentifierIndex,
    snippets: Seq<ScoredSnippet>,
    budget: int,
    excerpt: ExcerptRanges,
    entries: Seq<(u32, u8)>,
    id: u32,
)
    requires
        snippets.len() <= usize::MAX,
        ids_differ(snippets),
        greedy(index, snippets, budget, excerpt, entries),
        index.fits(),
        forall|k: int| 0 <= k < snippets.len() ==> (#[trigger] snippets[k]).fits(index),
    ensures
        ({
            let plan = plan_after(index, snippets, budget, excerpt, entries);
            plan.taken.contains_key(id) ==> snippet_from(snippets, id, 0) == Some(
                plan.taken[id].scored_snippet as int,
            )
        }),
    decreases entries.len(),
{
    if entries.len() > 0 {
        let shorter = entries.drop_last();
        lemma_taken_is_found(index, snippets, budget, excerpt, shorter, id);
        let (ids, paid) = lemma_plan_covered(index, snippets, budget, excerpt, shorter);
        let before = plan_after(index, snippets, budget, excerpt, shorter);
        assert(before.queue.contains_key(entries.last()));
        lemma_snippet_from(snippets, entries.last().0, 0);
    }
}

/// A snippet that is taken misses no parents.
proof fn lemma_nothing_missing(
    index: &IdentifierIndex,
    snippets: Seq<ScoredSnippet>,
    plan: Plan,
    k: int,
    n: nat,
)
    requires
        0 <= k < snippets.len(),
        n <= snippets[k].definition.parents@.len(),
        parents_paid(snippets, plan),
        plan.taken.contains_key(snippets[k].definition.id.0),
        plan.taken[snippets[k].definition.id.0].scored_snippet == k,
    ensures
        missing_parents(index, snippets[k].definition.parents@, plan.parents, n) == 0,
    decreases n,
{
    if n > 0 {
        lemma_nothing_missing(index, snippets, plan, k, (n - 1) as nat);
        let parents = snippets[k].definition.parents@;
        let parent = parents[n - 1];
        assert(parent == OutlineId(parent.0));
        assert(has_parent(snippets[k], parent.0));
        assert(plan.parents.contains(parent.0));
    }
}

/// The snippet of a number is the first one whose definition has it, and there is none
/// only where no definition has it.
pub proof fn law_snippet_of_number(snippets: Seq<ScoredSnippet>, id: u32, from: int)
    requires
        0 <= from,
    ensures
        match snippet_from(snippets, id, from) {
            Some(k) => {
                &&& from <= k < snippets.len()
                &&& snippets[k].definition.id.0 == id
                &&& forall|j: int| from <= j < k ==> (#[trigger] snippets[j]).definition.id.0 != id
            },
            None => forall|j: int|
                from <= j < snippets.len() ==> (#[trigger] snippets[j]).definition.id.0 != id,
        },
    decreases snippets.len() - from,
{
    if from < snippets.len() {
        law_snippet_of_number(snippets, id, from + 1);
    }
}

/// The parents of a snippet that is taken are paid for, and what was paid for before
/// stays so.
pub proof fn law_parents_are_paid_for(paid: Set<u32>, parents: Seq<OutlineId>, n: nat, number: u32)
    requires
        n <= parents.len(),
    ensures
        with_parents(paid, parents, n).contains(number) <==> paid.contains(number)
            || exists|k: int| 0 <= k < n && (#[trigger] parents[k]).0 == number,
    decreases n,
{
    if n > 0 {
        law_parents_are_paid_for(paid, parents, (n - 1) as nat, number);
        assert(parents[n - 1].0 == parents[n - 1].0);
    }
}

/// A parent costs the lines of its signature, once: nothing where it is paid for, and
/// nothing where it is not in the index. The costs of several parents add up.
pub proof fn law_parents_cost_their_lines(
    index: &IdentifierIndex,
    parents: Seq<OutlineId>,
    parent: OutlineId,
    paid: Set<u32>,
)
    ensures
        missing_parents(index, parents.push(parent), paid, parents.len() + 1) - missing_parents(
            index,
            parents,
            paid,
            parents.len(),
        ) == if paid.contains(parent.0) || index.located(parent) is None {
            0
        } else {
            let bytes = index.source_of((index.located(parent)->0).0);
            let range = index.item_of(parent).signature_range;
            line_end(bytes, range.end as int) - line_start(bytes, range.start as int)
        },
        missing_parents(index, Seq::empty(), paid, 0) == 0,
{
    lemma_missing_parents_prefix(index, parents, parent, paid, parents.len());
}

proof fn lemma_missing_parents_prefix(
    index: &IdentifierIndex,
    parents: Seq<OutlineId>,
    parent: OutlineId,
    paid: Set<u32>,
    n: nat,
)
    requires
        n <= parents.len(),
    ensures
        missing_parents(index, parents.push(parent), paid, n) == missing_parents(
            index,
            parents,
            paid,
            n,
        ),
    decreases n,
{
    if n > 0 {
        lemma_missing_parents_prefix(index, parents, parent, paid, (n - 1) as nat);
        assert(parents.push(parent)[n - 1] == parents[n - 1]);
    }
}

/// The code of a style stands for that style.
pub proof fn law_style_codes(style: SnippetStyle)
    ensures
        style_of(style_code(style)) == style,
{
}

/// At first the excerpt is paid for, and nothing is taken.
pub proof fn law_plan_starts_with_excerpt(snippets: Seq<ScoredSnippet>, excerpt: ExcerptRanges)
    ensures
        initial_plan(snippets, excerpt).used == excerpt.total_size(),
        initial_plan(snippets, excerpt).taken == Map::<u32, PlannedSnippet>::empty(),
        initial_plan(snippets, excerpt).parents == Set::<u32>::empty(),
{
}

/// An entry that shows more than what is taken of its snippet is taken exactly if the
/// budget covers what it adds: its lines less those that are paid for, and the
/// signatures of the parents that are not. That much is spent, and no more. Any other
/// entry changes nothing, what is taken of other snippets stays, and what is taken of
/// its own never shrinks.
pub proof fn law_entry_is_taken_if_it_fits(
    index: &IdentifierIndex,
    snippets: Seq<ScoredSnippet>,
    budget: int,
    plan: Plan,
    k: int,
    style: SnippetStyle,
    other: u32,
)
    requires
        ids_differ(snippets),
        0 <= k < snippets.len() <= usize::MAX,
        0 <= snippets[k].len(index, style) <= usize::MAX,
        other != snippets[k].definition.id.0,
    ensures
        ({
            let id = snippets[k].definition.id.0;
            let after = considered(index, snippets, budget, plan, (id, style_code(style)));
            let len = snippets[k].len(index, style);
            let before = if plan.taken.contains_key(id) {
                plan.taken[id].budget_used as int
            } else {
                0
            };
            let parents = snippets[k].definition.parents@;
            let cost = len - before + missing_parents(
                index,
                parents,
                plan.parents,
                parents.len(),
            );
            &&& if (plan.taken.contains_key(id) && len <= before) || plan.used + cost > budget {
                &&& after.taken == plan.taken
                &&& after.parents == plan.parents
                &&& after.used == plan.used
            } else {
                &&& after.taken.contains_key(id)
                &&& after.taken[id].scored_snippet == k
                &&& after.taken[id].style == style
                &&& after.taken[id].budget_used == len
                &&& after.used == plan.used + cost
            }
            &&& after.taken.contains_key(other) == plan.taken.contains_key(other)
            &&& plan.taken.contains_key(other) ==> after.taken[other] == plan.taken[other]
            &&& plan.taken.contains_key(id) ==> after.taken[id].budget_used
                >= plan.taken[id].budget_used
        }),
{
    lemma_found_by_id(snippets, k);
}

} // verus!
