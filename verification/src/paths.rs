//! Paths of files, by their parts.
use crate::zeta_context::zed_code::text_of;
use vstd::prelude::*;
use vstd::string::*;
use vstd::utf8::*;

verus! {

/// Whether a path has the same parts on every platform: slashes separate them,
/// and nothing in it is taken for another separator, a drive or a share.
pub open spec fn is_portable(path: Seq<char>) -> bool {
    &&& forall|i: int| 0 <= i < path.len() ==> #[trigger] path[i] != '\\' && path[i] != ':'
    &&& !(path.len() >= 2 && path[0] == '/' && path[1] == '/')
}

/// Where the text from `i` to the next slash ends.
pub open spec fn segment_end(path: Seq<char>, i: int) -> int
    decreases path.len() - i,
{
    if i >= path.len() || path[i] == '/' {
        i
    } else {
        segment_end(path, i + 1)
    }
}

/// Whether the text between two slashes is a part: it is not empty and not one dot.
pub open spec fn is_part(segment: Seq<char>) -> bool {
    segment.len() > 0 && segment != seq!['.']
}

/// The parts of a path from a position on.
pub open spec fn parts_from(path: Seq<char>, start: int) -> Seq<Seq<char>>
    decreases path.len() - start,
{
    let end = segment_end(path, start);
    if start > path.len() || end < start {
        Seq::empty()
    } else {
        let segment = path.subrange(start, end);
        (if is_part(segment) {
            seq![segment]
        } else {
            Seq::empty()
        }) + (if end < path.len() {
            parts_from(path, end + 1)
        } else {
            Seq::empty()
        })
    }
}

/// What a path starts from: the root, the current directory where a dot stands for
/// it, or nothing.
pub open spec fn leading_part(path: Seq<char>) -> Seq<Seq<char>> {
    if path.len() > 0 && path[0] == '/' {
        seq![seq!['/']]
    } else if path.len() > 0 && path[0] == '.' && segment_end(path, 0) == 1 {
        seq![seq!['.']]
    } else {
        Seq::empty()
    }
}

/// The parts of a path. Repeated slashes count once, a dot stands for nothing but at
/// the start, and a slash at the end is ignored.
pub open spec fn path_parts(path: Seq<char>) -> Seq<Seq<char>> {
    leading_part(path) + parts_from(path, 0)
}

/// Parts with slashes between them.
pub open spec fn joined(parts: Seq<Seq<char>>) -> Seq<char>
    decreases parts.len(),
{
    if parts.len() == 0 {
        Seq::empty()
    } else if parts.len() == 1 {
        parts[0]
    } else {
        joined(parts.drop_last()).push('/') + parts.last()
    }
}

/// The plainest path with the given parts.
pub open spec fn written_path(parts: Seq<Seq<char>>) -> Seq<char> {
    if parts.len() > 0 && parts[0] == seq!['/'] {
        seq!['/'] + joined(parts.drop_first())
    } else {
        joined(parts)
    }
}

/// Whether a path has nothing in it that could be left out.
pub open spec fn is_tidy(path: Seq<char>) -> bool {
    path == written_path(path_parts(path))
}

/// Whether the parts of a path start with those of a root.
pub open spec fn is_below(path: Seq<char>, root: Seq<char>) -> bool {
    let parts = path_parts(path);
    let above = path_parts(root);
    above.len() <= parts.len() && parts.take(above.len() as int) == above
}

/// The parts of a path below a root.
pub open spec fn parts_below(path: Seq<char>, root: Seq<char>) -> Seq<Seq<char>> {
    path_parts(path).skip(path_parts(root).len() as int)
}

/// Whether a text names a path below a root by its other parts. A tidy path is
/// written out plainly.
pub open spec fn names_rest(text: Seq<char>, path: Seq<char>, root: Seq<char>) -> bool {
    &&& path_parts(text) == parts_below(path, root)
    &&& is_tidy(path) ==> text == written_path(parts_below(path, root))
}

/// Whether a text shows a path: relative to a root that it is below, otherwise as it
/// is.
pub open spec fn shows_path(text: Seq<char>, path: Seq<char>, root: Seq<char>) -> bool {
    if is_below(path, root) {
        names_rest(text, path, root)
    } else {
        text == path
    }
}

/// The position after the last occurrence of a character; zero where there is
/// none.
pub open spec fn after_last(text: Seq<char>, c: char) -> int
    decreases text.len(),
{
    if text.len() == 0 || text.last() == c {
        text.len() as int
    } else {
        after_last(text.drop_last(), c)
    }
}

/// The name of a file: the last part of its path, unless that stands for a
/// directory whose name it does not give.
pub open spec fn file_name(path: Seq<char>) -> Option<Seq<char>> {
    let parts = path_parts(path);
    if parts.len() == 0 || parts.last() == seq!['/'] || parts.last() == seq!['.'] || parts.last()
        == seq!['.', '.'] {
        None
    } else {
        Some(parts.last())
    }
}

/// What follows the last dot of a file name, unless that starts the name.
pub open spec fn extension_of(name: Seq<char>) -> Option<Seq<char>> {
    if after_last(name, '.') <= 1 {
        None
    } else {
        Some(name.skip(after_last(name, '.')))
    }
}

/// The extension of a path.
pub open spec fn path_extension_of(path: Seq<char>) -> Option<Seq<char>> {
    match file_name(path) {
        Some(name) => extension_of(name),
        None => None,
    }
}

/// `std::path::Path::extension`: what follows the last dot of the file name,
/// unless there is none or it starts the name. What separates the parts of a path
/// that is not portable depends on the platform, so of those nothing is claimed.
#[verifier::external_body]
pub(crate) fn path_extension(path: &str) -> (r: Option<String>)
    ensures
        is_portable(path@) ==> text_of(r) == path_extension_of(path@),
{
    std::path::Path::new(path).extension().and_then(|e| e.to_str()).map(|e| e.to_string())
}

/// `std::path::Path::strip_prefix`: a path with the parts that are left below a root,
/// if the path is below it, whole parts being compared. What separates the parts of a
/// path that is not portable depends on the platform, so of those nothing is claimed.
#[verifier::external_body]
pub(crate) fn strip_root(path: &str, root: &str) -> (r: Option<String>)
    ensures
        is_portable(path@) && is_portable(root@) ==> match r {
            Some(rest) => is_below(path@, root@) && names_rest(rest@, path@, root@),
            None => !is_below(path@, root@),
        },
{
    std::path::Path::new(path).strip_prefix(root).ok().map(|p| p.display().to_string())
}

/// Whether an answer is true of two paths being the same: a text is the same path as
/// itself, and portable paths are the same if their parts are.
pub open spec fn tells_same_path(a: Seq<char>, b: Seq<char>, answer: bool) -> bool {
    &&& a == b ==> answer
    &&& is_portable(a) && is_portable(b) ==> answer == (path_parts(a) == path_parts(b))
}

/// `==` of `std::path::Path`, which compares parts. What separates the parts of a path
/// that is not portable depends on the platform, so of two such paths it is only
/// claimed that equal texts are equal paths.
#[verifier::external_body]
pub(crate) fn same_path(a: &str, b: &str) -> (r: bool)
    ensures
        tells_same_path(a@, b@, r),
{
    std::path::Path::new(a) == std::path::Path::new(b)
}

/// Whether a text comes before another one in the order of the dictionary.
pub open spec fn text_before(a: Seq<char>, b: Seq<char>) -> bool
    decreases a.len(),
{
    if b.len() == 0 {
        false
    } else if a.len() == 0 {
        true
    } else if a[0] == b[0] {
        text_before(a.drop_first(), b.drop_first())
    } else {
        a[0] < b[0]
    }
}

/// Where a part stands among the kinds of parts: the root, the current directory, the
/// parent directory, a name.
pub open spec fn part_rank(part: Seq<char>) -> int {
    if part == seq!['/'] {
        0
    } else if part == seq!['.'] {
        1
    } else if part == seq!['.', '.'] {
        2
    } else {
        3
    }
}

/// Whether a part comes before another one: by its kind, and names by their texts.
pub open spec fn part_before(a: Seq<char>, b: Seq<char>) -> bool {
    part_rank(a) < part_rank(b) || (part_rank(a) == 3 && part_rank(b) == 3 && text_before(a, b))
}

/// Whether parts come before others: the first that differ decide.
pub open spec fn parts_before(a: Seq<Seq<char>>, b: Seq<Seq<char>>) -> bool
    decreases a.len(),
{
    if b.len() == 0 {
        false
    } else if a.len() == 0 {
        true
    } else if a[0] == b[0] {
        parts_before(a.drop_first(), b.drop_first())
    } else {
        part_before(a[0], b[0])
    }
}

/// Whether a path comes before another one, part by part, as `std::path::Path` orders
/// portable paths.
pub open spec fn path_before(a: Seq<char>, b: Seq<char>) -> bool {
    parts_before(path_parts(a), path_parts(b))
}

/// The parts of a list as texts.
pub open spec fn part_texts(parts: Seq<Vec<char>>) -> Seq<Seq<char>> {
    parts.map_values(|part: Vec<char>| part@)
}

proof fn lemma_segment_end(path: Seq<char>, i: int)
    requires
        0 <= i <= path.len(),
    ensures
        i <= segment_end(path, i) <= path.len(),
        segment_end(path, i) < path.len() ==> path[segment_end(path, i)] == '/',
    decreases path.len() - i,
{
    if i < path.len() && path[i] != '/' {
        lemma_segment_end(path, i + 1);
    }
}

/// Splits a path into its parts.
fn split_path(path: &str) -> (parts: Vec<Vec<char>>)
    ensures
        part_texts(parts@) == path_parts(path@),
{
    let len: usize = path.unicode_len();
    let mut parts: Vec<Vec<char>> = Vec::new();
    let mut start: usize = 0;
    if len > 0 && path.get_char(0) == '/' {
        parts.push(vec!['/']);
        assert(parts@[0]@ =~= seq!['/']);
    } else if len > 0 && path.get_char(0) == '.' && (len == 1 || path.get_char(1) == '/') {
        parts.push(vec!['.']);
        assert(parts@[0]@ =~= seq!['.']);
    }
    proof {
        reveal_with_fuel(segment_end, 3);
        if len >= 2 {
            lemma_segment_end(path@, 2);
        }
        if parts@.len() > 0 {
            assert(part_texts(parts@)[0] == parts@[0]@);
        }
        assert(part_texts(parts@) =~= leading_part(path@));
        assert(part_texts(parts@) + parts_from(path@, 0) == path_parts(path@));
    }
    loop
        invariant_except_break
            start <= len,
            part_texts(parts@) + parts_from(path@, start as int) == path_parts(path@),
        invariant
            len == path@.len(),
        ensures
            part_texts(parts@) == path_parts(path@),
        decreases len - start,
    {
        let mut segment: Vec<char> = Vec::new();
        let mut end: usize = start;
        while end < len && path.get_char(end) != '/'
            invariant
                start <= end <= len == path@.len(),
                segment@ == path@.subrange(start as int, end as int),
                segment_end(path@, start as int) == segment_end(path@, end as int),
            decreases len - end,
        {
            segment.push(path.get_char(end));
            end = end + 1;
            assert(segment@ =~= path@.subrange(start as int, end as int));
        }
        let ghost before = part_texts(parts@);
        let ghost text = segment@;
        assert(text == path@.subrange(start as int, segment_end(path@, start as int)));
        let is_dot = segment.len() == 1 && segment[0] == '.';
        proof {
            assert(is_dot == (text =~= seq!['.']));
        }
        if segment.len() > 0 && !is_dot {
            parts.push(segment);
            assert(part_texts(parts@) =~= before.push(text));
        }
        let ghost rest = if end < len {
            parts_from(path@, end + 1)
        } else {
            Seq::empty()
        };
        assert(part_texts(parts@) + rest =~= before + parts_from(path@, start as int));
        if end == len {
            assert(part_texts(parts@) + rest =~= part_texts(parts@));
            break;
        }
        start = end + 1;
    }
    parts
}

/// Compares two texts: whether they are the same, and whether the first comes before.
fn compare_texts(a: &Vec<char>, b: &Vec<char>) -> (r: (bool, bool))
    ensures
        r.0 == (a@ == b@),
        r.1 == text_before(a@, b@),
{
    let mut i: usize = 0;
    assert(a@.skip(0) =~= a@);
    assert(b@.skip(0) =~= b@);
    while i < a.len() && i < b.len()
        invariant
            i <= a@.len(),
            i <= b@.len(),
            forall|j: int| 0 <= j < i ==> a@[j] == b@[j],
            text_before(a@, b@) == text_before(a@.skip(i as int), b@.skip(i as int)),
        decreases a@.len() - i,
    {
        let x = a[i];
        let y = b[i];
        proof {
            assert(a@.skip(i as int)[0] == x && b@.skip(i as int)[0] == y);
            assert(a@.skip(i as int).drop_first() =~= a@.skip(i + 1));
            assert(b@.skip(i as int).drop_first() =~= b@.skip(i + 1));
        }
        if x != y {
            return (false, x < y);
        }
        i = i + 1;
    }
    if a.len() == b.len() {
        assert(a@ =~= b@);
    }
    (a.len() == b.len(), i < b.len())
}

/// The kind of a part, by its place among the kinds.
fn rank_of(part: &Vec<char>) -> (r: u8)
    ensures
        r == part_rank(part@),
{
    let len: usize = part.len();
    if len == 1 && part[0] == '/' {
        assert(part@ =~= seq!['/']);
        0
    } else if len == 1 && part[0] == '.' {
        assert(part@ =~= seq!['.']);
        1
    } else if len == 2 && part[0] == '.' && part[1] == '.' {
        assert(part@ =~= seq!['.', '.']);
        2
    } else {
        3
    }
}

/// Tests whether a path comes before another one.
pub fn is_path_before(a: &str, b: &str) -> (r: bool)
    ensures
        r == path_before(a@, b@),
{
    let x = split_path(a);
    let y = split_path(b);
    let ghost xs = part_texts(x@);
    let ghost ys = part_texts(y@);
    let mut i: usize = 0;
    assert(xs.skip(0) =~= xs);
    assert(ys.skip(0) =~= ys);
    while i < x.len() && i < y.len()
        invariant
            xs == part_texts(x@),
            ys == part_texts(y@),
            i <= x@.len(),
            i <= y@.len(),
            xs == path_parts(a@),
            ys == path_parts(b@),
            path_before(a@, b@) == parts_before(xs.skip(i as int), ys.skip(i as int)),
        decreases x@.len() - i,
    {
        let (same, before) = compare_texts(&x[i], &y[i]);
        proof {
            assert(xs.skip(i as int)[0] == x@[i as int]@);
            assert(ys.skip(i as int)[0] == y@[i as int]@);
            assert(xs.skip(i as int).drop_first() =~= xs.skip(i + 1));
            assert(ys.skip(i as int).drop_first() =~= ys.skip(i + 1));
        }
        if !same {
            let p: u8 = rank_of(&x[i]);
            let q: u8 = rank_of(&y[i]);
            return p < q || (p == 3 && q == 3 && before);
        }
        i = i + 1;
    }
    i < y.len()
}

proof fn lemma_text_order(a: Seq<char>, b: Seq<char>)
    ensures
        a == b || text_before(a, b) || text_before(b, a),
        !(text_before(a, b) && text_before(b, a)),
        !text_before(a, a),
    decreases a.len(),
{
    if a.len() > 0 {
        lemma_text_order(a.drop_first(), a.drop_first());
    }
    if a.len() > 0 && b.len() > 0 && a[0] == b[0] {
        lemma_text_order(a.drop_first(), b.drop_first());
        if a.drop_first() == b.drop_first() {
            assert(seq![a[0]] + a.drop_first() =~= a);
            assert(seq![b[0]] + b.drop_first() =~= b);
        }
    } else if a.len() == 0 && b.len() == 0 {
        assert(a =~= b);
    } else if a.len() > 0 && b.len() > 0 {
        char_u32_cast(a[0], a[0] as u32);
        char_u32_cast(b[0], b[0] as u32);
    }
}

proof fn lemma_text_order_transitive(a: Seq<char>, b: Seq<char>, c: Seq<char>)
    requires
        text_before(a, b),
        text_before(b, c),
    ensures
        text_before(a, c),
    decreases a.len(),
{
    if a.len() > 0 && b.len() > 0 && c.len() > 0 && a[0] == b[0] && b[0] == c[0] {
        lemma_text_order_transitive(a.drop_first(), b.drop_first(), c.drop_first());
    }
}

proof fn lemma_parts_order(a: Seq<Seq<char>>, b: Seq<Seq<char>>)
    ensures
        a == b || parts_before(a, b) || parts_before(b, a),
        !(parts_before(a, b) && parts_before(b, a)),
        !parts_before(a, a),
    decreases a.len(),
{
    if a.len() > 0 {
        lemma_parts_order(a.drop_first(), a.drop_first());
    }
    if a.len() > 0 && b.len() > 0 && a[0] == b[0] {
        lemma_parts_order(a.drop_first(), b.drop_first());
        if a.drop_first() == b.drop_first() {
            assert(seq![a[0]] + a.drop_first() =~= a);
            assert(seq![b[0]] + b.drop_first() =~= b);
        }
    } else if a.len() == 0 && b.len() == 0 {
        assert(a =~= b);
    } else if a.len() > 0 && b.len() > 0 {
        lemma_text_order(a[0], b[0]);
    }
}

proof fn lemma_parts_order_transitive(a: Seq<Seq<char>>, b: Seq<Seq<char>>, c: Seq<Seq<char>>)
    requires
        parts_before(a, b),
        parts_before(b, c),
    ensures
        parts_before(a, c),
    decreases a.len(),
{
    if a.len() > 0 && b.len() > 0 && c.len() > 0 {
        if a[0] == b[0] && b[0] == c[0] {
            lemma_parts_order_transitive(a.drop_first(), b.drop_first(), c.drop_first());
        } else if a[0] != b[0] && b[0] != c[0] {
            lemma_text_order(a[0], c[0]);
            if part_rank(a[0]) == 3 && part_rank(b[0]) == 3 && part_rank(c[0]) == 3 {
                lemma_text_order_transitive(a[0], b[0], c[0]);
            }
        }
    }
}

/// The order of paths is kept along a chain.
pub proof fn law_path_order_is_transitive(a: Seq<char>, b: Seq<char>, c: Seq<char>)
    requires
        path_before(a, b),
        path_before(b, c),
    ensures
        path_before(a, c),
{
    lemma_parts_order_transitive(path_parts(a), path_parts(b), path_parts(c));
}

/// Of two paths with different parts one comes before the other, and not both.
pub proof fn law_path_order_is_total(a: Seq<char>, b: Seq<char>)
    ensures
        path_parts(a) == path_parts(b) || path_before(a, b) || path_before(b, a),
        !(path_before(a, b) && path_before(b, a)),
        path_parts(a) == path_parts(b) ==> !path_before(a, b),
{
    lemma_parts_order(path_parts(a), path_parts(b));
}

/// The parts of two paths with a slash between them are those of the first and then
/// those of the second.
pub proof fn law_parts_of_joined_paths(a: Seq<char>, b: Seq<char>)
    ensures
        parts_from(a + seq!['/'] + b, 0) == parts_from(a, 0) + parts_from(b, 0),
{
    lemma_joined_from(a, b, 0);
}

proof fn lemma_joined_from(a: Seq<char>, b: Seq<char>, start: int)
    requires
        0 <= start <= a.len(),
    ensures
        parts_from(a + seq!['/'] + b, start) == parts_from(a, start) + parts_from(b, 0),
    decreases a.len() - start,
{
    let path = a + seq!['/'] + b;
    lemma_same_segment(a, b, start);
    lemma_segment_end(a, start);
    let end = segment_end(a, start);
    assert(path.subrange(start, end) =~= a.subrange(start, end));
    let first = if is_part(a.subrange(start, end)) {
        seq![a.subrange(start, end)]
    } else {
        Seq::empty()
    };
    if end < a.len() {
        lemma_joined_from(a, b, end + 1);
        assert(parts_from(path, start) == first + parts_from(path, end + 1));
        assert(parts_from(a, start) == first + parts_from(a, end + 1));
        assert(first + (parts_from(a, end + 1) + parts_from(b, 0)) =~= first + parts_from(
            a,
            end + 1,
        ) + parts_from(b, 0));
    } else {
        lemma_shifted(a + seq!['/'], b, 0);
        assert(parts_from(path, start) == first + parts_from(path, end + 1));
        assert(parts_from(a, start) =~= first);
    }
}

proof fn lemma_same_segment(a: Seq<char>, b: Seq<char>, i: int)
    requires
        0 <= i <= a.len(),
    ensures
        segment_end(a + seq!['/'] + b, i) == segment_end(a, i),
    decreases a.len() - i,
{
    let path = a + seq!['/'] + b;
    if i < a.len() {
        assert(path[i] == a[i]);
        lemma_same_segment(a, b, i + 1);
    } else {
        assert(path[i] == '/');
    }
}

proof fn lemma_shifted_segment(before: Seq<char>, path: Seq<char>, i: int)
    requires
        0 <= i <= path.len(),
    ensures
        segment_end(before + path, before.len() + i) == before.len() + segment_end(path, i),
    decreases path.len() - i,
{
    if i < path.len() {
        assert((before + path)[before.len() + i] == path[i]);
        lemma_shifted_segment(before, path, i + 1);
    }
}

proof fn lemma_shifted(before: Seq<char>, path: Seq<char>, i: int)
    requires
        0 <= i <= path.len(),
    ensures
        parts_from(before + path, before.len() + i) == parts_from(path, i),
    decreases path.len() - i,
{
    lemma_shifted_segment(before, path, i);
    lemma_segment_end(path, i);
    let end = segment_end(path, i);
    assert((before + path).subrange(before.len() + i, before.len() + end) =~= path.subrange(
        i,
        end,
    ));
    if end < path.len() {
        lemma_shifted(before, path, end + 1);
    }
}

/// A text without a slash is one part, unless it is empty or a dot, which are none.
pub proof fn law_one_part(name: Seq<char>)
    requires
        !name.contains('/'),
    ensures
        parts_from(name, 0) == if name.len() == 0 || name == seq!['.'] {
            Seq::<Seq<char>>::empty()
        } else {
            seq![name]
        },
{
    lemma_no_slash(name, 0);
    assert(name.subrange(0, name.len() as int) =~= name);
    assert(parts_from(name, 0) =~= if is_part(name) {
        seq![name]
    } else {
        Seq::empty()
    });
}

proof fn lemma_no_slash(name: Seq<char>, i: int)
    requires
        !name.contains('/'),
        0 <= i <= name.len(),
    ensures
        segment_end(name, i) == name.len(),
    decreases name.len() - i,
{
    if i < name.len() {
        assert(name[i] != '/');
        lemma_no_slash(name, i + 1);
    }
}

/// A path that starts with a slash starts from the root, and one that starts neither
/// with a slash nor with a dot has only the parts between its slashes.
pub proof fn law_where_paths_start(path: Seq<char>)
    ensures
        path_parts(seq!['/'] + path) == seq![seq!['/']] + parts_from(path, 0),
        path.len() > 0 && path[0] != '/' && path[0] != '.' ==> path_parts(path) == parts_from(
            path,
            0,
        ),
{
    law_parts_of_joined_paths(Seq::empty(), path);
    assert(Seq::<char>::empty() + seq!['/'] + path =~= seq!['/'] + path);
    law_one_part(Seq::empty());
    assert(Seq::<Seq<char>>::empty() + parts_from(path, 0) =~= parts_from(path, 0));
}

/// A path below a root is the root, a slash and the rest, and the parts below the root
/// are those of the rest.
pub proof fn law_paths_below_a_root(root: Seq<char>, rest: Seq<char>)
    requires
        root.len() > 0,
    ensures
        is_below(root + seq!['/'] + rest, root),
        parts_below(root + seq!['/'] + rest, root) == parts_from(rest, 0),
{
    let path = root + seq!['/'] + rest;
    law_parts_of_joined_paths(root, rest);
    lemma_same_segment(root, rest, 0);
    assert(path[0] == root[0]);
    assert(leading_part(path) == leading_part(root));
    let above = path_parts(root);
    assert(path_parts(path) =~= above + parts_from(rest, 0));
    assert((above + parts_from(rest, 0)).take(above.len() as int) =~= above);
    assert((above + parts_from(rest, 0)).skip(above.len() as int) =~= parts_from(rest, 0));
}

/// The name of a file is what follows the last slash of its path.
pub proof fn law_file_names(directory: Seq<char>, name: Seq<char>)
    requires
        !name.contains('/'),
        name.len() > 0,
        name != seq!['.'],
        name != seq!['.', '.'],
    ensures
        file_name(directory + seq!['/'] + name) == Some(name),
{
    let path = directory + seq!['/'] + name;
    law_parts_of_joined_paths(directory, name);
    law_one_part(name);
    let parts = path_parts(path);
    assert(parts =~= (leading_part(path) + parts_from(directory, 0)).push(name));
    if name == seq!['/'] {
        assert(name[0] == '/');
    }
}

/// The extension of a name is what follows its last dot. A name without a dot, and one
/// whose only dot is in front, have none.
pub proof fn law_extensions(stem: Seq<char>, extension: Seq<char>)
    requires
        !extension.contains('.'),
    ensures
        stem.len() > 0 ==> extension_of(stem + seq!['.'] + extension) == Some(extension),
        extension_of(seq!['.'] + extension) is None,
        extension_of(extension) is None,
{
    lemma_after_last(stem + seq!['.'], extension);
    assert((stem + seq!['.'] + extension).skip((stem + seq!['.']).len() as int) =~= extension);
    lemma_after_last(seq!['.'], extension);
    lemma_after_last(Seq::empty(), extension);
    assert(Seq::<char>::empty() + extension =~= extension);
}

proof fn lemma_after_last(before: Seq<char>, after: Seq<char>)
    requires
        !after.contains('.'),
        before.len() == 0 || before.last() == '.',
    ensures
        after_last(before + after, '.') == before.len(),
    decreases after.len(),
{
    if after.len() == 0 {
        assert(before + after =~= before);
    } else {
        assert(after[after.len() - 1] != '.');
        assert((before + after).last() == after.last());
        assert((before + after).drop_last() =~= before + after.drop_last());
        assert(!after.drop_last().contains('.')) by {
            if after.drop_last().contains('.') {
                let k = choose|k: int|
                    0 <= k < after.drop_last().len() && after.drop_last()[k] == '.';
                assert(after[k] == '.');
            }
        }
        lemma_after_last(before, after.drop_last());
    }
}

/// What two texts start with in common decides nothing, the first characters that
/// differ decide, and a text comes before every longer one that it starts.
pub proof fn law_dictionary_order(common: Seq<char>, a: Seq<char>, b: Seq<char>)
    ensures
        text_before(common + a, common + b) == text_before(a, b),
        a.len() > 0 && b.len() > 0 && a[0] != b[0] ==> (text_before(a, b) <==> a[0] < b[0]),
        b.len() > 0 ==> text_before(common, common + b),
        !text_before(common + b, common),
    decreases common.len(),
{
    if common.len() == 0 {
        assert(common + a =~= a);
        assert(common + b =~= b);
    } else {
        law_dictionary_order(common.drop_first(), a, b);
        assert((common + a).drop_first() =~= common.drop_first() + a);
        assert((common + b).drop_first() =~= common.drop_first() + b);
    }
}

} // verus!
