//! What is wrong with a settings file, in words.
use crate::stable_sort::{
    law_sort_loses_nothing, law_stable_order, lemma_sorted_items, stable_order, stable_sort,
    stably_sorted,
};
use crate::text::{decimal, lemma_line_start, line_start, push_decimal, NEWLINE};
use std::ops::Range;
use vstd::prelude::*;
use vstd::string::*;
use vstd::utf8::*;

verus! {

/// Something wrong in a part of a settings file.
#[derive(Debug)]
pub struct SettingsDiagnostic {
    pub range: Range<usize>,
    pub message: String,
}

/// Where settings come from.
#[derive(Clone, Copy)]
pub enum SettingsPathRef<'a> {
    Builtin(&'a str),
    Path(&'a str),
}

/// A text in double quotes, with escapes.
pub uninterp spec fn debug_quoted(text: Seq<char>) -> Seq<char>;

/// The `Debug` notation of a `str`: a function of the text.
#[verifier::external_body]
pub(crate) fn quote(text: &str) -> (s: String)
    ensures
        s@ == debug_quoted(text@),
{
    format!("{:?}", text)
}

/// The `Debug` notation of a `std::path::Path`. What it is, is not documented and
/// may depend on the platform, so nothing is claimed of it.
#[verifier::external_body]
fn quote_path(path: &str) -> (s: String) {
    format!("{:?}", std::path::Path::new(path))
}

impl SettingsPathRef<'_> {
    /// Whether a text gives the path in words. How the path of a file is quoted is
    /// left to the platform.
    pub open spec fn shown_as(&self, text: Seq<char>) -> bool {
        match self {
            SettingsPathRef::Builtin(path) => text == "built-in file "@ + path@,
            SettingsPathRef::Path(_) => true,
        }
    }

    pub fn to_string(&self) -> (s: String)
        ensures
            self.shown_as(s@),
    {
        match self {
            SettingsPathRef::Builtin(path) => {
                let mut s = "built-in file ".to_owned();
                s.append(path);
                s
            },
            SettingsPathRef::Path(path) => quote_path(path),
        }
    }
}

/// An offset kept within a text.
pub open spec fn clamped(bytes: Seq<u8>, offset: int) -> int {
    if offset < bytes.len() {
        offset
    } else {
        bytes.len() as int
    }
}

/// The number of newlines before a position.
pub open spec fn newlines_before(bytes: Seq<u8>, i: int) -> nat
    decreases i,
{
    if i <= 0 {
        0
    } else {
        newlines_before(bytes, i - 1) + if bytes[i - 1] == NEWLINE {
            1nat
        } else {
            0nat
        }
    }
}

/// The row and the column of an offset, counted from one; columns are bytes. An
/// offset beyond the end stands for the end.
pub open spec fn place_of(bytes: Seq<u8>, offset: int) -> (nat, nat) {
    let at = clamped(bytes, offset);
    (newlines_before(bytes, at) + 1, (at - line_start(bytes, at) + 1) as nat)
}

proof fn lemma_newlines_bound(bytes: Seq<u8>, i: int)
    requires
        0 <= i,
    ensures
        newlines_before(bytes, i) <= i,
    decreases i,
{
    if i > 0 {
        lemma_newlines_bound(bytes, i - 1);
    }
}

/// The row and the column of an offset, counted from one.
fn find_place(content: &str, offset: usize) -> (r: (u64, u64))
    requires
        content.spec_bytes().len() < u32::MAX,
    ensures
        (r.0 as nat, r.1 as nat) == place_of(content.spec_bytes(), offset as int),
{
    let bytes = content.as_bytes();
    let at: usize = if offset < bytes.len() {
        offset
    } else {
        bytes.len()
    };
    let mut row: u64 = 0;
    let mut start: usize = 0;
    let mut i: usize = 0;
    while i < at
        invariant
            i <= at <= bytes@.len(),
            bytes@.len() < u32::MAX,
            row == newlines_before(bytes@, i as int),
            start == line_start(bytes@, i as int),
            start <= i,
        decreases at - i,
    {
        proof {
            lemma_newlines_bound(bytes@, i as int);
        }
        if bytes[i] == NEWLINE {
            row = row + 1;
            start = i + 1;
        }
        i = i + 1;
    }
    proof {
        lemma_newlines_bound(bytes@, at as int);
    }
    (row + 1, (at - start) as u64 + 1)
}

/// A diagnostic in words: where it is, and what is wrong.
pub open spec fn described(bytes: Seq<u8>, diagnostic: SettingsDiagnostic) -> Seq<char> {
    let start = place_of(bytes, diagnostic.range.start as int);
    let end = place_of(bytes, diagnostic.range.end as int);
    "at "@ + decimal(start.0) + ":"@ + decimal(start.1) + "-"@ + (if start.0 == end.0 {
        Seq::empty()
    } else {
        decimal(end.0) + ":"@
    }) + decimal(end.1) + ": "@ + diagnostic.message@
}

/// Appends a diagnostic in words.
fn push_diagnostic(out: &mut String, content: &str, diagnostic: &SettingsDiagnostic)
    requires
        content.spec_bytes().len() < u32::MAX,
    ensures
        final(out)@ == old(out)@ + described(content.spec_bytes(), *diagnostic),
{
    let ghost before = out@;
    let start = find_place(content, diagnostic.range.start);
    let end = find_place(content, diagnostic.range.end);
    out.append("at ");
    push_decimal(out, start.0);
    out.append(":");
    push_decimal(out, start.1);
    out.append("-");
    if start.0 != end.0 {
        push_decimal(out, end.0);
        out.append(":");
    }
    push_decimal(out, end.1);
    out.append(": ");
    out.append(diagnostic.message.as_str());
    assert(out@ =~= before + described(content.spec_bytes(), *diagnostic));
}

/// Diagnostics in words, each after an empty line.
pub open spec fn all_described(bytes: Seq<u8>, diagnostics: Seq<SettingsDiagnostic>) -> Seq<char>
    decreases diagnostics.len(),
{
    if diagnostics.len() == 0 {
        Seq::empty()
    } else {
        all_described(bytes, diagnostics.drop_last()) + "\n\n"@ + described(
            bytes,
            diagnostics.last(),
        )
    }
}

/// Where diagnostics start.
pub open spec fn starts_of(diagnostics: Seq<SettingsDiagnostic>) -> Seq<usize> {
    diagnostics.map_values(|d: SettingsDiagnostic| d.range.start)
}

/// The line that counts the diagnostics that are left out, if any are.
pub open spec fn omitted_text(n: nat) -> Seq<char> {
    if n == 0 {
        Seq::empty()
    } else if n == 1 {
        "\n... 1 more error omitted"@
    } else {
        "\n... "@ + decimal(n) + " more errors omitted"@
    }
}

/// Whether a report describes what is wrong with a settings file: nothing for no
/// diagnostics, a line for one, and for more the number of those described, each of
/// them in the order of the text, and how many are beyond the limit.
pub open spec fn is_report(
    r: Option<String>,
    path: Seq<char>,
    limit: nat,
    bytes: Seq<u8>,
    diagnostics: Seq<SettingsDiagnostic>,
) -> bool {
    let sorted = stably_sorted(diagnostics, starts_of(diagnostics));
    let shown = if diagnostics.len() <= limit {
        sorted
    } else {
        sorted.take(limit as int)
    };
    if diagnostics.len() == 0 || limit == 0 {
        r is None
    } else if diagnostics.len() == 1 {
        r matches Some(text) && text@ == "In "@ + path + " "@ + described(bytes, diagnostics[0])
    } else {
        r matches Some(text) && text@ == decimal(shown.len()) + " errors in "@ + path + ":"@
            + all_described(bytes, shown) + omitted_text((diagnostics.len() - shown.len()) as nat)
    }
}

/// Describes what is wrong with a settings file, whose path is given in words.
pub fn describe_diagnostics(
    path: &str,
    limit: usize,
    content: &str,
    diagnostics: Vec<SettingsDiagnostic>,
) -> (r: Option<String>)
    requires
        content.spec_bytes().len() < u32::MAX,
    ensures
        is_report(r, path@, limit as nat, content.spec_bytes(), diagnostics@),
{
    if diagnostics.len() == 0 || limit == 0 {
        return None;
    }
    if diagnostics.len() == 1 {
        let mut text = "In ".to_owned();
        text.append(path);
        text.append(" ");
        push_diagnostic(&mut text, content, &diagnostics[0]);
        return Some(text);
    }
    let ghost given = diagnostics@;
    let mut diagnostics = diagnostics;
    let mut keys: Vec<usize> = Vec::new();
    let mut k: usize = 0;
    while k < diagnostics.len()
        invariant
            k <= diagnostics@.len(),
            diagnostics@ == given,
            keys@.len() == k,
            forall|j: int| 0 <= j < k ==> #[trigger] keys@[j] == given[j].range.start,
        decreases diagnostics@.len() - k,
    {
        keys.push(diagnostics[k].range.start);
        k = k + 1;
    }
    assert(keys@ =~= starts_of(given));
    proof {
        lemma_sorted_items(given, keys@);
    }
    stable_sort(&mut diagnostics, &mut keys);
    let ghost sorted = diagnostics@;
    let all: usize = diagnostics.len();
    let count: usize = if all <= limit {
        all
    } else {
        limit
    };
    let ghost shown = sorted.take(count as int);
    let mut text = String::new();
    push_decimal(&mut text, count as u64);
    text.append(" errors in ");
    text.append(path);
    text.append(":");
    let ghost head = text@;
    let mut i: usize = 0;
    assert(sorted.take(0) =~= Seq::<SettingsDiagnostic>::empty());
    assert(head + all_described(content.spec_bytes(), sorted.take(0)) =~= head);
    while i < count
        invariant
            i <= count <= diagnostics@.len(),
            diagnostics@ == sorted,
            content.spec_bytes().len() < u32::MAX,
            text@ == head + all_described(content.spec_bytes(), sorted.take(i as int)),
        decreases count - i,
    {
        assert(sorted.take(i + 1).drop_last() =~= sorted.take(i as int));
        text.append("\n\n");
        push_diagnostic(&mut text, content, &diagnostics[i]);
        assert(text@ =~= head + all_described(content.spec_bytes(), sorted.take(i + 1)));
        i = i + 1;
    }
    let ghost body = text@;
    let omitted: usize = all - count;
    if omitted > 1 {
        text.append("\n... ");
        push_decimal(&mut text, omitted as u64);
        text.append(" more errors omitted");
    } else if omitted == 1 {
        text.append("\n... 1 more error omitted");
    }
    proof {
        assert(all <= limit ==> shown =~= sorted);
        assert(text@ =~= body + omitted_text(omitted as nat));
        assert(head =~= decimal(shown.len()) + " errors in "@ + path@ + ":"@);
    }
    Some(text)
}

impl SettingsPathRef<'_> {
    /// Describes what is wrong with a settings file.
    pub fn diagnostics_to_string(
        self,
        limit: usize,
        content: &str,
        diagnostics: Vec<SettingsDiagnostic>,
    ) -> (r: Option<String>)
        requires
            content.spec_bytes().len() < u32::MAX,
        ensures
            exists|path: Seq<char>|
                #[trigger] self.shown_as(path) && is_report(
                    r,
                    path,
                    limit as nat,
                    content.spec_bytes(),
                    diagnostics@,
                ),
    {
        let path = self.to_string();
        let r = describe_diagnostics(path.as_str(), limit, content, diagnostics);
        assert(self.shown_as(path@));
        r
    }
}

/// The row of an offset counts the newlines before it, and its column the bytes from
/// the start of its line on, both from one. An offset beyond the end stands for the
/// end.
pub proof fn law_places(bytes: Seq<u8>, offset: int)
    requires
        0 <= offset,
    ensures
        ({
            let at = if offset < bytes.len() {
                offset
            } else {
                bytes.len() as int
            };
            let (row, column) = place_of(bytes, offset);
            &&& row == bytes.take(at).filter(|b: u8| b == NEWLINE).len() + 1
            &&& 1 <= column <= at + 1
            &&& column == at + 1 || bytes[at - column] == NEWLINE
            &&& forall|i: int| at - column + 1 <= i < at ==> bytes[i] != NEWLINE
        }),
{
    let at = clamped(bytes, offset);
    lemma_newlines_counted(bytes, at);
    lemma_line_start(bytes, at);
}

proof fn lemma_newlines_counted(bytes: Seq<u8>, i: int)
    requires
        0 <= i <= bytes.len(),
    ensures
        newlines_before(bytes, i) == bytes.take(i).filter(|b: u8| b == NEWLINE).len(),
    decreases i,
{
    reveal(Seq::filter);
    if i > 0 {
        lemma_newlines_counted(bytes, i - 1);
        assert(bytes.take(i).drop_last() =~= bytes.take(i - 1));
    }
}

/// Diagnostics are shown by where they start, and those that start at the same place in
/// the order in which they came.
pub proof fn law_diagnostics_in_order(diagnostics: Seq<SettingsDiagnostic>, a: int, b: int)
    requires
        0 <= a < b < diagnostics.len(),
    ensures
        ({
            let sorted = stably_sorted(diagnostics, starts_of(diagnostics));
            &&& sorted.len() == diagnostics.len()
            &&& sorted[a].range.start <= sorted[b].range.start
            &&& sorted.contains(diagnostics[a])
            &&& sorted.contains(diagnostics[b])
        }),
{
    let starts = starts_of(diagnostics);
    let sorted = stably_sorted(diagnostics, starts);
    lemma_sorted_items(diagnostics, starts);
    law_stable_order(starts, starts.len());
    let order = stable_order(starts, starts.len());
    assert(sorted[a] == diagnostics[order[a]]);
    assert(sorted[b] == diagnostics[order[b]]);
    assert(starts[order[a]] <= starts[order[b]]);
    lemma_sorted_holds(diagnostics, a);
    lemma_sorted_holds(diagnostics, b);
}

proof fn lemma_sorted_holds(diagnostics: Seq<SettingsDiagnostic>, i: int)
    requires
        0 <= i < diagnostics.len(),
    ensures
        stably_sorted(diagnostics, starts_of(diagnostics)).contains(diagnostics[i]),
{
    let starts = starts_of(diagnostics);
    let sorted = stably_sorted(diagnostics, starts);
    lemma_sorted_items(diagnostics, starts);
    law_sort_loses_nothing(starts, starts.len(), i);
    let order = stable_order(starts, starts.len());
    let p = choose|p: int| 0 <= p < order.len() && order[p] == i;
    law_stable_order(starts, starts.len());
    assert(sorted[p] == diagnostics[i]);
}

/// Whether a text has a part.
pub open spec fn says(text: Seq<char>, before: Seq<char>, part: Seq<char>, after: Seq<char>) -> bool {
    text == before + part + after
}

proof fn lemma_all_described(bytes: Seq<u8>, diagnostics: Seq<SettingsDiagnostic>, k: int) -> (r: (
    Seq<char>,
    Seq<char>,
))
    requires
        0 <= k < diagnostics.len(),
    ensures
        says(all_described(bytes, diagnostics), r.0, described(bytes, diagnostics[k]), r.1),
    decreases diagnostics.len(),
{
    let earlier = all_described(bytes, diagnostics.drop_last());
    let last = described(bytes, diagnostics.last());
    if k == diagnostics.len() - 1 {
        assert(earlier + "\n\n"@ + last =~= (earlier + "\n\n"@) + last + Seq::<char>::empty());
        (earlier + "\n\n"@, Seq::<char>::empty())
    } else {
        let (before, after) = lemma_all_described(bytes, diagnostics.drop_last(), k);
        let more = after + "\n\n"@ + last;
        assert(earlier + "\n\n"@ + last =~= before + described(bytes, diagnostics[k]) + more);
        (before, more)
    }
}

/// A report with room for all diagnostics describes each of them.
pub proof fn law_report_describes_all(
    report: String,
    path: Seq<char>,
    limit: nat,
    bytes: Seq<u8>,
    diagnostics: Seq<SettingsDiagnostic>,
    k: int,
)
    requires
        is_report(Some(report), path, limit, bytes, diagnostics),
        diagnostics.len() <= limit,
        0 <= k < diagnostics.len(),
    ensures
        exists|before: Seq<char>, after: Seq<char>| #[trigger]
            says(report@, before, described(bytes, diagnostics[k]), after),
{
    let sorted = stably_sorted(diagnostics, starts_of(diagnostics));
    if diagnostics.len() == 1 {
        let before = "In "@ + path + " "@;
        assert(report@ =~= before + described(bytes, diagnostics[0]) + Seq::<char>::empty());
        assert(says(report@, before, described(bytes, diagnostics[k]), Seq::<char>::empty()));
    } else {
        lemma_sorted_holds(diagnostics, k);
        let p = choose|p: int| 0 <= p < sorted.len() && sorted[p] == diagnostics[k];
        let (before, after) = lemma_all_described(bytes, sorted, p);
        let start = decimal(sorted.len()) + " errors in "@ + path + ":"@;
        let end = omitted_text((diagnostics.len() - sorted.len()) as nat);
        assert(report@ =~= (start + before) + described(bytes, diagnostics[k]) + (after + end));
        assert(says(report@, start + before, described(bytes, diagnostics[k]), after + end));
    }
}

/// There is a report exactly where there is something to report and room for it.
pub proof fn law_when_there_is_a_report(
    report: Option<String>,
    path: Seq<char>,
    limit: nat,
    bytes: Seq<u8>,
    diagnostics: Seq<SettingsDiagnostic>,
)
    requires
        is_report(report, path, limit, bytes, diagnostics),
    ensures
        report is None <==> diagnostics.len() == 0 || limit == 0,
{
}

} // verus!
