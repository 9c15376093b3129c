//! Files with rules for agents, and the directories in which they hold.
use crate::text::{
    bytes_at, has_suffix, lemma_boundary_after_ascii, slice, str_eq, trim, trimmed,
};
use vstd::prelude::*;
use vstd::string::*;
use vstd::utf8::*;

verus! {

/// The number of names that a rules file can have.
pub const RULES_FILE_COUNT: usize = 6;

/// The names that a rules file can have, the preferred one first. The last is the
/// name that the assistant in use reads.
pub open spec fn rules_name(k: int, last_name: Seq<char>) -> Seq<char> {
    if k == 0 {
        ".rules"@
    } else if k == 1 {
        ".cursorrules"@
    } else if k == 2 {
        ".windsurfrules"@
    } else if k == 3 {
        ".clinerules"@
    } else if k == 4 {
        ".github/copilot-instructions.md"@
    } else {
        last_name
    }
}

/// The name of a rules file.
pub fn rules_file_name<'a>(k: usize, last_name: &'a str) -> (r: &'a str)
    requires
        k < RULES_FILE_COUNT,
    ensures
        r@ == rules_name(k as int, last_name@),
{
    if k == 0 {
        ".rules"
    } else if k == 1 {
        ".cursorrules"
    } else if k == 2 {
        ".windsurfrules"
    } else if k == 3 {
        ".clinerules"
    } else if k == 4 {
        ".github/copilot-instructions.md"
    } else {
        last_name
    }
}

/// When the rules of a file hold.
#[derive(Debug)]
pub enum WhenUsed {
    WithinDirectory(String),
}

/// The directory of a path that ends with a name after a slash.
pub open spec fn directory_of(path: Seq<u8>, name: Seq<u8>) -> Option<Seq<u8>> {
    let end = path.len() - name.len() - 1;
    if has_suffix(path, name) && end >= 0 && path[end] == 0x2f {
        Some(path.take(end))
    } else {
        None
    }
}

/// The directory in which the rules of a path hold, by the first name from `k`
/// on that the path ends with.
pub open spec fn rules_directory(path: Seq<u8>, last_name: Seq<char>, k: int) -> Option<Seq<u8>>
    decreases RULES_FILE_COUNT - k,
{
    if k >= RULES_FILE_COUNT {
        None
    } else {
        match directory_of(path, encode_utf8(rules_name(k, last_name))) {
            Some(directory) => Some(directory),
            None => rules_directory(path, last_name, k + 1),
        }
    }
}

impl WhenUsed {
    /// Where the rules of a file hold, if its path is that of a rules file.
    pub fn for_path(path: &str, last_name: &str) -> (r: Option<Self>)
        ensures
            match r {
                Some(WhenUsed::WithinDirectory(directory)) => rules_directory(
                    path.spec_bytes(), last_name@,
                    0,
                ) == Some(encode_utf8(directory@)),
                None => rules_directory(path.spec_bytes(), last_name@, 0) is None,
            },
    {
        let bytes = path.as_bytes();
        let len: usize = bytes.len();
        let mut k: usize = 0;
        while k < RULES_FILE_COUNT
            invariant
                k <= RULES_FILE_COUNT,
                bytes@ == path.spec_bytes(),
                len == bytes@.len(),
                rules_directory(path.spec_bytes(), last_name@, 0) == rules_directory(
                    path.spec_bytes(), last_name@,
                    k as int,
                ),
            decreases RULES_FILE_COUNT - k,
        {
            let name = rules_file_name(k, last_name).as_bytes();
            if name.len() < len {
                let end: usize = len - name.len() - 1;
                if bytes_at(bytes, name, end + 1) && bytes[end] == 0x2f {
                    proof {
                        encode_utf8_valid_utf8(path@);
                        lemma_boundary_after_ascii(bytes@, end as int);
                        is_char_boundary_start_end_of_seq(bytes@);
                    }
                    let directory = slice(path, 0, end);
                    assert(directory.spec_bytes() =~= bytes@.take(end as int));
                    return Some(WhenUsed::WithinDirectory(directory.to_owned()));
                }
            }
            k = k + 1;
        }
        None
    }
}

/// A file or directory of a worktree, by the parts of its path.
#[derive(Debug)]
pub struct WorktreeEntry {
    pub path: Vec<String>,
    pub is_dir: bool,
    pub is_file: bool,
}

/// The entries of a worktree.
#[derive(Debug)]
pub struct Worktree {
    pub id: u64,
    pub is_single_file: bool,
    pub entries: Vec<WorktreeEntry>,
}

/// A file in a worktree.
#[derive(Debug)]
pub struct ProjectPath {
    pub worktree_id: u64,
    pub path: Vec<String>,
}

/// The parts of a path.
pub open spec fn parts(path: Seq<String>) -> Seq<Seq<char>> {
    path.map_values(|part: String| part@)
}

/// The parts of the name of a rules file.
pub open spec fn name_parts(k: int, last_name: Seq<char>) -> Seq<Seq<char>> {
    if k == 4 {
        seq![".github"@, "copilot-instructions.md"@]
    } else {
        seq![rules_name(k, last_name)]
    }
}

/// The first entry from `i` on at a path.
pub open spec fn entry_from(entries: Seq<WorktreeEntry>, path: Seq<Seq<char>>, i: int) -> Option<
    int,
>
    decreases entries.len() - i,
{
    if i >= entries.len() {
        None
    } else if parts(entries[i].path@) == path {
        Some(i)
    } else {
        entry_from(entries, path, i + 1)
    }
}

/// The rules file of a directory, by the first name from `k` on that a file
/// there has.
pub open spec fn rules_entry(
    entries: Seq<WorktreeEntry>,
    last_name: Seq<char>,
    directory: Seq<Seq<char>>,
    k: int,
) -> Option<
    int,
>
    decreases RULES_FILE_COUNT - k,
{
    if k >= RULES_FILE_COUNT {
        None
    } else {
        match entry_from(entries, directory + name_parts(k, last_name), 0) {
            Some(i) => if entries[i].is_file {
                Some(i)
            } else {
                rules_entry(entries, last_name, directory, k + 1)
            },
            None => rules_entry(entries, last_name, directory, k + 1),
        }
    }
}

/// The rules files that hold in a directory: that of the directory itself, and
/// those of the directories around it, the innermost first. Each is given with
/// its directory.
pub open spec fn rules_around(
    entries: Seq<WorktreeEntry>,
    last_name: Seq<char>,
    directory: Seq<Seq<char>>,
    n: nat,
) -> Seq<(Seq<Seq<char>>, Seq<Seq<char>>)>
    decreases n,
{
    let here = directory.take(n as int);
    (match rules_entry(entries, last_name, here, 0) {
        Some(i) => seq![(parts(entries[i].path@), here)],
        None => Seq::empty(),
    }) + (if n == 0 {
        Seq::empty()
    } else {
        rules_around(entries, last_name, directory, (n - 1) as nat)
    })
}

/// The directory from which rules files are looked for: a directory itself, or
/// that of a file.
pub open spec fn start_directory(worktree: &Worktree, path: Seq<Seq<char>>) -> Option<
    Seq<Seq<char>>,
> {
    if worktree.is_single_file {
        None
    } else {
        match entry_from(worktree.entries@, path, 0) {
            Some(i) => if worktree.entries@[i].is_dir {
                Some(path)
            } else if path.len() > 0 {
                Some(path.drop_last())
            } else {
                None
            },
            None => None,
        }
    }
}

/// The rules files for a path.
pub open spec fn rules_for(worktree: &Worktree, last_name: Seq<char>, path: Seq<Seq<char>>) -> Seq<
    (Seq<Seq<char>>, Seq<Seq<char>>),
> {
    match start_directory(worktree, path) {
        Some(directory) => rules_around(worktree.entries@, last_name, directory, directory.len()),
        None => Seq::empty(),
    }
}

/// Tests whether two paths are the same.
fn same_path(a: &Vec<String>, b: &Vec<String>) -> (r: bool)
    ensures
        r == (parts(a@) == parts(b@)),
{
    if a.len() != b.len() {
        assert(parts(a@).len() != parts(b@).len());
        return false;
    }
    let mut i: usize = 0;
    while i < a.len()
        invariant
            i <= a@.len(),
            a@.len() == b@.len(),
            forall|j: int| 0 <= j < i ==> #[trigger] a@[j]@ == b@[j]@,
        decreases a@.len() - i,
    {
        if !str_eq(a[i].as_str(), b[i].as_str()) {
            assert(parts(a@)[i as int] != parts(b@)[i as int]);
            return false;
        }
        i = i + 1;
    }
    assert(parts(a@) =~= parts(b@));
    true
}

/// The first parts of a path.
fn copy_parts(path: &Vec<String>, n: usize) -> (r: Vec<String>)
    requires
        n <= path@.len(),
    ensures
        parts(r@) == parts(path@).take(n as int),
{
    let mut r: Vec<String> = Vec::new();
    let mut i: usize = 0;
    while i < n
        invariant
            i <= n <= path@.len(),
            r@.len() == i,
            forall|j: int| 0 <= j < i ==> (#[trigger] r@[j])@ == path@[j]@,
        decreases n - i,
    {
        r.push(path[i].clone());
        i = i + 1;
    }
    assert(parts(r@) =~= parts(path@).take(n as int));
    r
}

impl Worktree {
    /// The position of the entry at a path.
    pub fn entry_for_path(&self, path: &Vec<String>) -> (r: Option<usize>)
        ensures
            match r {
                Some(i) => entry_from(self.entries@, parts(path@), 0) == Some(i as int) && i
                    < self.entries@.len(),
                None => entry_from(self.entries@, parts(path@), 0) is None,
            },
    {
        let mut i: usize = 0;
        while i < self.entries.len()
            invariant
                i <= self.entries@.len(),
                entry_from(self.entries@, parts(path@), 0) == entry_from(
                    self.entries@,
                    parts(path@),
                    i as int,
                ),
            decreases self.entries@.len() - i,
        {
            if same_path(&self.entries[i].path, path) {
                return Some(i);
            }
            i = i + 1;
        }
        None
    }

    /// The position of the rules file of a directory, given by the first parts
    /// of a path.
    pub fn rules_file_in(&self, last_name: &str, path: &Vec<String>, n: usize) -> (r: Option<usize>)
        requires
            n <= path@.len(),
        ensures
            match r {
                Some(i) => rules_entry(self.entries@, last_name@, parts(path@).take(n as int), 0) == Some(
                    i as int,
                ) && i < self.entries@.len(),
                None => rules_entry(self.entries@, last_name@, parts(path@).take(n as int), 0) is None,
            },
    {
        let ghost directory = parts(path@).take(n as int);
        let mut k: usize = 0;
        while k < RULES_FILE_COUNT
            invariant
                k <= RULES_FILE_COUNT,
                n <= path@.len(),
                directory == parts(path@).take(n as int),
                rules_entry(self.entries@, last_name@, directory, 0) == rules_entry(
                    self.entries@, last_name@,
                    directory,
                    k as int,
                ),
            decreases RULES_FILE_COUNT - k,
        {
            let mut file = copy_parts(path, n);
            let ghost before = file@;
            if k == 4 {
                file.push(".github".to_owned());
                file.push("copilot-instructions.md".to_owned());
            } else {
                file.push(rules_file_name(k, last_name).to_owned());
            }
            assert(parts(file@) =~= directory + name_parts(k as int, last_name@));
            if let Some(i) = self.entry_for_path(&file) {
                if self.entries[i].is_file {
                    return Some(i);
                }
            }
            k = k + 1;
        }
        None
    }
}

/// Rules files with the directories in which they hold, as texts.
pub open spec fn rules_texts(found: Seq<(ProjectPath, Vec<String>)>) -> Seq<
    (Seq<Seq<char>>, Seq<Seq<char>>),
> {
    found.map_values(|f: (ProjectPath, Vec<String>)| (parts(f.0.path@), parts(f.1@)))
}

/// The rules files for a path, each with the directory in which it holds.
pub fn rules_files_for_path(worktree: &Worktree, path: &Vec<String>, last_name: &str) -> (r: Vec<
    (ProjectPath, Vec<String>),
>)
    ensures
        rules_texts(r@) == rules_for(worktree, last_name@, parts(path@)),
        forall|k: int|
            0 <= k < r@.len() ==> (#[trigger] r@[k]).0.worktree_id == worktree.id,
{
    let mut r: Vec<(ProjectPath, Vec<String>)> = Vec::new();
    assert(rules_texts(r@) =~= Seq::empty());
    if worktree.is_single_file {
        return r;
    }
    let entry = match worktree.entry_for_path(path) {
        Some(i) => i,
        None => {
            return r;
        },
    };
    let start: usize = if worktree.entries[entry].is_dir {
        path.len()
    } else {
        if path.len() == 0 {
            return r;
        }
        path.len() - 1
    };
    let ghost all = parts(path@);
    let ghost directory = all.take(start as int);
    proof {
        assert(start == path@.len() ==> directory =~= all);
        assert(start + 1 == path@.len() ==> directory =~= all.drop_last());
    }
    let ghost goal = rules_around(worktree.entries@, last_name@, directory, start as nat);
    let mut n: usize = start;
    assert(rules_texts(r@) + goal =~= goal);
    loop
        invariant_except_break
            rules_texts(r@) + rules_around(worktree.entries@, last_name@, directory, n as nat) == goal,
        invariant
            n <= start <= path@.len(),
            all == parts(path@),
            directory == all.take(start as int),
            goal == rules_around(worktree.entries@, last_name@, directory, start as nat),
            forall|k: int|
                0 <= k < r@.len() ==> (#[trigger] r@[k]).0.worktree_id == worktree.id,
        ensures
            rules_texts(r@) == goal,
        decreases n,
    {
        let ghost before = rules_texts(r@);
        let ghost here = directory.take(n as int);
        assert(here =~= all.take(n as int));
        if let Some(i) = worktree.rules_file_in(last_name, path, n) {
            let file = &worktree.entries[i].path;
            let rules_path = copy_parts(file, file.len());
            let within = copy_parts(path, n);
            assert(parts(file@).take(file@.len() as int) =~= parts(file@));
            let found = (ProjectPath { worktree_id: worktree.id, path: rules_path }, within);
            let ghost text = (parts(found.0.path@), parts(found.1@));
            r.push(found);
            assert(rules_texts(r@) =~= before.push(text));
        }
        if n == 0 {
            assert(rules_texts(r@) =~= goal);
            break;
        }
        assert(rules_texts(r@) + rules_around(worktree.entries@, last_name@, directory, (n - 1) as nat)
            =~= goal);
        n = n - 1;
    }
    r
}

/// The rules file of the whole worktree.
pub fn worktree_rules_file(worktree: &Worktree, last_name: &str) -> (r: Option<usize>)
    ensures
        match r {
            Some(i) => i < worktree.entries@.len() && rules_entry(
                worktree.entries@,
                last_name@,
                Seq::empty(),
                0,
            ) == Some(i as int),
            None => rules_entry(worktree.entries@, last_name@, Seq::empty(), 0) is None,
        },
{
    let root: Vec<String> = Vec::new();
    assert(parts(root@).take(0) =~= Seq::<Seq<char>>::empty());
    worktree.rules_file_in(last_name, &root, 0)
}

/// A rules file as a system prompt quotes it.
#[derive(Debug)]
pub struct SystemPromptRulesFile {
    pub path_in_worktree: Vec<String>,
    pub abs_path: String,
    pub text: String,
}

/// The rules file of the whole worktree once it is loaded, or nothing where there
/// is none. `abs_path` is its path and `text` its text, which is trimmed.
pub fn load_worktree_rules_file(
    worktree: &Worktree,
    last_name: &str,
    abs_path: String,
    text: &str,
) -> (r: Option<SystemPromptRulesFile>)
    ensures
        match rules_entry(worktree.entries@, last_name@, Seq::empty(), 0) {
            Some(i) => {
                &&& r matches Some(file)
                &&& parts(file.path_in_worktree@) == parts(worktree.entries@[i].path@)
                &&& file.abs_path == abs_path
                &&& file.text@ == trimmed(text@)
            },
            None => r is None,
        },
{
    match worktree_rules_file(worktree, last_name) {
        Some(i) => {
            let path = &worktree.entries[i].path;
            let path_in_worktree = copy_parts(path, path.len());
            assert(parts(path@).take(path@.len() as int) =~= parts(path@));
            Some(SystemPromptRulesFile { path_in_worktree, abs_path, text: trim(text) })
        },
        None => None,
    }
}

/// The rules files around a directory are those of its ancestors, at most one of
/// each, the innermost first.
pub proof fn law_innermost_rules_first(
    entries: Seq<WorktreeEntry>,
    last_name: Seq<char>,
    directory: Seq<Seq<char>>,
    n: nat,
)
    requires
        n <= directory.len(),
    ensures
        ({
            let found = rules_around(entries, last_name, directory, n);
            &&& forall|i: int|
                0 <= i < found.len() ==> (#[trigger] found[i]).1.len() <= n && found[i].1
                    == directory.take(found[i].1.len() as int)
            &&& forall|i: int, j: int|
                0 <= i < j < found.len() ==> (#[trigger] found[j]).1.len() < (
                #[trigger] found[i]).1.len()
        }),
    decreases n,
{
    let here = directory.take(n as int);
    if n > 0 {
        law_innermost_rules_first(entries, last_name, directory, (n - 1) as nat);
    }
    let outer = if n == 0 {
        Seq::empty()
    } else {
        rules_around(entries, last_name, directory, (n - 1) as nat)
    };
    let found = rules_around(entries, last_name, directory, n);
    match rules_entry(entries, last_name, here, 0) {
        Some(e) => {
            let inner = (parts(entries[e].path@), here);
            assert(found =~= seq![inner] + outer);
            assert forall|i: int| 0 <= i < found.len() implies (#[trigger] found[i]).1.len() <= n
                && found[i].1 == directory.take(found[i].1.len() as int) by {
                if i > 0 {
                    assert(found[i] == outer[i - 1]);
                }
            }
            assert forall|i: int, j: int| 0 <= i < j < found.len() implies (
            #[trigger] found[j]).1.len() < (#[trigger] found[i]).1.len() by {
                assert(found[j] == outer[j - 1]);
                if i > 0 {
                    assert(found[i] == outer[i - 1]);
                }
            }
        },
        None => {
            assert(found =~= outer);
        },
    }
}

/// A path is that of a file in a directory exactly if it is the directory, a slash and
/// the name.
pub proof fn law_path_is_directory_and_name(path: Seq<u8>, directory: Seq<u8>, name: Seq<u8>)
    ensures
        directory_of(path, name) == Some(directory) <==> path == directory + seq![0x2fu8] + name,
{
    if directory_of(path, name) == Some(directory) {
        let end = path.len() - name.len() - 1;
        assert(path =~= path.take(end) + seq![path[end]] + path.subrange(
            path.len() - name.len(),
            path.len() as int,
        ));
    }
    let whole = directory + seq![0x2fu8] + name;
    assert(whole.subrange(whole.len() - name.len(), whole.len() as int) =~= name);
    assert(whole.take(whole.len() - name.len() - 1) =~= directory);
}

/// Whether a path is that of a rules file with a name in a directory.
pub open spec fn is_rules_path(
    path: Seq<u8>,
    directory: Seq<u8>,
    last_name: Seq<char>,
    k: int,
) -> bool {
    path == directory + seq![0x2fu8] + encode_utf8(rules_name(k, last_name))
}

/// Rules hold in the directory that the path of a rules file names; a path that names
/// none is not that of a rules file.
pub proof fn law_rules_hold_in_their_directory(path: Seq<u8>, last_name: Seq<char>)
    ensures
        match rules_directory(path, last_name, 0) {
            Some(directory) => exists|k: int|
                0 <= k < RULES_FILE_COUNT && #[trigger] is_rules_path(
                    path,
                    directory,
                    last_name,
                    k,
                ),
            None => forall|directory: Seq<u8>, k: int|
                0 <= k < RULES_FILE_COUNT ==> !#[trigger] is_rules_path(
                    path,
                    directory,
                    last_name,
                    k,
                ),
        },
{
    lemma_rules_directory(path, last_name, 0);
}

proof fn lemma_rules_directory(path: Seq<u8>, last_name: Seq<char>, from: int)
    requires
        0 <= from,
    ensures
        match rules_directory(path, last_name, from) {
            Some(directory) => exists|k: int|
                from <= k < RULES_FILE_COUNT && #[trigger] is_rules_path(
                    path,
                    directory,
                    last_name,
                    k,
                ),
            None => forall|directory: Seq<u8>, k: int|
                from <= k < RULES_FILE_COUNT ==> !#[trigger] is_rules_path(
                    path,
                    directory,
                    last_name,
                    k,
                ),
        },
    decreases RULES_FILE_COUNT - from,
{
    if from < RULES_FILE_COUNT {
        let name = encode_utf8(rules_name(from, last_name));
        match directory_of(path, name) {
            Some(directory) => {
                law_path_is_directory_and_name(path, directory, name);
                assert(is_rules_path(path, directory, last_name, from));
            },
            None => {
                lemma_rules_directory(path, last_name, from + 1);
                assert forall|directory: Seq<u8>| !#[trigger] is_rules_path(
                    path,
                    directory,
                    last_name,
                    from,
                ) by {
                    law_path_is_directory_and_name(path, directory, name);
                }
            },
        }
    }
}

/// The parts of the name of a rules file, with a slash between them, are the name.
pub proof fn law_parts_of_rules_names(k: int, last_name: Seq<char>)
    requires
        0 <= k < RULES_FILE_COUNT,
    ensures
        name_parts(k, last_name).len() == 1 ==> name_parts(k, last_name)[0] == rules_name(
            k,
            last_name,
        ),
        name_parts(k, last_name).len() != 1 ==> name_parts(k, last_name).len() == 2
            && name_parts(k, last_name)[0] + seq!['/'] + name_parts(k, last_name)[1]
            == rules_name(k, last_name),
{
    reveal_strlit(".github");
    reveal_strlit("copilot-instructions.md");
    reveal_strlit(".github/copilot-instructions.md");
    if k == 4 {
        assert(".github"@ + seq!['/'] + "copilot-instructions.md"@
            =~= ".github/copilot-instructions.md"@);
    }
}

/// The entry of a path is the first one that has it, and there is none only where no
/// entry has it.
pub proof fn law_entry_of_path(entries: Seq<WorktreeEntry>, path: Seq<Seq<char>>, from: int)
    requires
        0 <= from,
    ensures
        match entry_from(entries, path, from) {
            Some(i) => {
                &&& from <= i < entries.len()
                &&& parts(entries[i].path@) == path
                &&& forall|j: int| from <= j < i ==> parts((#[trigger] entries[j]).path@) != path
            },
            None => forall|j: int|
                from <= j < entries.len() ==> parts((#[trigger] entries[j]).path@) != path,
        },
    decreases entries.len() - from,
{
    if from < entries.len() {
        law_entry_of_path(entries, path, from + 1);
    }
}

/// Whether a directory has a file with one of the names of rules files.
pub open spec fn has_rules_name(
    entries: Seq<WorktreeEntry>,
    last_name: Seq<char>,
    directory: Seq<Seq<char>>,
    k: int,
) -> bool {
    entry_from(entries, directory + name_parts(k, last_name), 0) matches Some(i)
        && entries[i].is_file
}

/// Whether an entry is the file of a directory with one of the names of rules files.
pub open spec fn is_rules_file(
    entries: Seq<WorktreeEntry>,
    last_name: Seq<char>,
    directory: Seq<Seq<char>>,
    k: int,
    i: int,
) -> bool {
    &&& 0 <= i < entries.len()
    &&& entries[i].is_file
    &&& parts(entries[i].path@) == directory + name_parts(k, last_name)
}

/// The rules file of a directory is the file with the most preferred of the names that
/// files there have, and there is none only where no file has one of the names.
pub proof fn law_preferred_rules_file(
    entries: Seq<WorktreeEntry>,
    last_name: Seq<char>,
    directory: Seq<Seq<char>>,
)
    ensures
        match rules_entry(entries, last_name, directory, 0) {
            Some(i) => exists|k: int|
                {
                    &&& 0 <= k < RULES_FILE_COUNT
                    &&& #[trigger] is_rules_file(entries, last_name, directory, k, i)
                    &&& forall|j: int|
                        0 <= j < k ==> !#[trigger] has_rules_name(
                            entries,
                            last_name,
                            directory,
                            j,
                        )
                },
            None => forall|j: int|
                0 <= j < RULES_FILE_COUNT ==> !#[trigger] has_rules_name(
                    entries,
                    last_name,
                    directory,
                    j,
                ),
        },
{
    lemma_preferred_from(entries, last_name, directory, 0);
}

proof fn lemma_preferred_from(
    entries: Seq<WorktreeEntry>,
    last_name: Seq<char>,
    directory: Seq<Seq<char>>,
    from: int,
)
    requires
        0 <= from,
    ensures
        match rules_entry(entries, last_name, directory, from) {
            Some(i) => exists|k: int|
                {
                    &&& from <= k < RULES_FILE_COUNT
                    &&& #[trigger] is_rules_file(entries, last_name, directory, k, i)
                    &&& forall|j: int|
                        from <= j < k ==> !#[trigger] has_rules_name(
                            entries,
                            last_name,
                            directory,
                            j,
                        )
                },
            None => forall|j: int|
                from <= j < RULES_FILE_COUNT ==> !#[trigger] has_rules_name(
                    entries,
                    last_name,
                    directory,
                    j,
                ),
        },
    decreases RULES_FILE_COUNT - from,
{
    if from < RULES_FILE_COUNT {
        let path = directory + name_parts(from, last_name);
        law_entry_of_path(entries, path, 0);
        if has_rules_name(entries, last_name, directory, from) {
            let i = entry_from(entries, path, 0)->0;
            assert(is_rules_file(entries, last_name, directory, from, i));
        } else {
            lemma_preferred_from(entries, last_name, directory, from + 1);
            if let Some(i) = rules_entry(entries, last_name, directory, from + 1) {
                let k = choose|k: int|
                    {
                        &&& from + 1 <= k < RULES_FILE_COUNT
                        &&& #[trigger] is_rules_file(entries, last_name, directory, k, i)
                        &&& forall|j: int|
                            from + 1 <= j < k ==> !#[trigger] has_rules_name(
                                entries,
                                last_name,
                                directory,
                                j,
                            )
                    };
                assert(is_rules_file(entries, last_name, directory, k, i));
            }
        }
    }
}

/// The rules file of every directory around a path holds for it: none is left out.
pub proof fn law_no_rules_are_left_out(
    entries: Seq<WorktreeEntry>,
    last_name: Seq<char>,
    directory: Seq<Seq<char>>,
    n: nat,
    m: nat,
)
    requires
        m <= n <= directory.len(),
    ensures
        rules_entry(entries, last_name, directory.take(m as int), 0) matches Some(i)
            ==> rules_around(entries, last_name, directory, n).contains(
            (parts(entries[i].path@), directory.take(m as int)),
        ),
    decreases n,
{
    let found = rules_around(entries, last_name, directory, n);
    if let Some(i) = rules_entry(entries, last_name, directory.take(m as int), 0) {
        let file = (parts(entries[i].path@), directory.take(m as int));
        if m == n {
            assert(found[0] == file);
        } else {
            law_no_rules_are_left_out(entries, last_name, directory, (n - 1) as nat, m);
            let inner = rules_around(entries, last_name, directory, (n - 1) as nat);
            let k = choose|k: int| 0 <= k < inner.len() && inner[k] == file;
            assert(found[found.len() - inner.len() + k] == inner[k]);
        }
    }
}

/// Each of the rules files around a path is the rules file of the directory that it is
/// given with.
pub proof fn law_rules_are_of_their_directories(
    entries: Seq<WorktreeEntry>,
    last_name: Seq<char>,
    directory: Seq<Seq<char>>,
    n: nat,
    k: int,
)
    requires
        n <= directory.len(),
        0 <= k < rules_around(entries, last_name, directory, n).len(),
    ensures
        ({
            let (file, place) = rules_around(entries, last_name, directory, n)[k];
            rules_entry(entries, last_name, place, 0) matches Some(i) && parts(entries[i].path@)
                == file
        }),
    decreases n,
{
    let found = rules_around(entries, last_name, directory, n);
    if n > 0 {
        let inner = rules_around(entries, last_name, directory, (n - 1) as nat);
        let here = found.len() - inner.len();
        if k >= here {
            law_rules_are_of_their_directories(
                entries,
                last_name,
                directory,
                (n - 1) as nat,
                k - here,
            );
            assert(found[k] == inner[k - here]);
        }
    }
}

/// Rules files are looked for from a directory itself, and for a file from the
/// directory that it lies in.
pub proof fn law_start_directory(worktree: &Worktree, path: Seq<Seq<char>>)
    ensures
        match start_directory(worktree, path) {
            Some(directory) => {
                &&& !worktree.is_single_file
                &&& entry_from(worktree.entries@, path, 0) matches Some(i)
                &&& if worktree.entries@[i].is_dir {
                    directory == path
                } else {
                    path.len() > 0 && path == directory.push(path.last())
                }
            },
            None => worktree.is_single_file || match entry_from(worktree.entries@, path, 0) {
                Some(i) => path.len() == 0 && !worktree.entries@[i].is_dir,
                None => true,
            },
        },
{
    if path.len() > 0 {
        assert(path =~= path.drop_last().push(path.last()));
    }
}

} // verus!
