//! The rules files of the worktrees of a project, kept up to date.
use std::collections::HashMap;
use vstd::prelude::*;
use vstd::std_specs::hash::*;

verus! {

broadcast use vstd::std_specs::hash::group_hash_axioms;

/// A rules file as it was loaded. Times are numbers that differ where the times
/// do.
#[derive(Debug)]
pub struct RulesFile {
    pub path: String,
    pub mtime: u64,
    pub content: String,
}

/// What a worktree has at the path of its rules file.
#[derive(Debug)]
pub struct RulesEntry {
    pub is_file: bool,
    pub mtime: Option<u64>,
    /// The absolute path, unless there is none.
    pub abs_path: Option<String>,
}

/// The loaded rules files, by worktree.
#[derive(Debug)]
pub struct RulesSet {
    pub rules_files: HashMap<u64, RulesFile>,
}

impl RulesSet {
    pub fn new() -> (r: Self)
        ensures
            r.rules_files@ == Map::<u64, RulesFile>::empty(),
    {
        RulesSet { rules_files: HashMap::new() }
    }

    /// Whether the rules file of a worktree is to be loaded: it is a file with
    /// a time and a path, and was not loaded at that time already.
    pub open spec fn is_due(&self, worktree: u64, entry: Option<RulesEntry>) -> bool {
        &&& entry matches Some(entry)
        &&& entry.is_file
        &&& entry.abs_path is Some
        &&& entry.mtime matches Some(mtime)
        &&& !(self.rules_files@.contains_key(worktree) && self.rules_files@[worktree].mtime
            == mtime)
    }

    /// The path and the time of the rules file to load for a worktree.
    pub fn to_load(&self, worktree: u64, entry: &Option<RulesEntry>) -> (r: Option<(String, u64)>)
        ensures
            r is Some <==> self.is_due(worktree, *entry),
            r matches Some((path, mtime)) ==> {
                &&& Some(mtime) == (entry->0).mtime
                &&& Some(path) == (entry->0).abs_path
            },
    {
        match entry {
            Some(entry) => {
                if !entry.is_file {
                    return None;
                }
                match (&entry.abs_path, entry.mtime) {
                    (Some(path), Some(mtime)) => {
                        let unchanged = match self.rules_files.get(&worktree) {
                            Some(file) => file.mtime == mtime,
                            None => false,
                        };
                        if unchanged {
                            None
                        } else {
                            Some((path.clone(), mtime))
                        }
                    },
                    _ => None,
                }
            },
            None => None,
        }
    }

    /// The worktrees among the first `n` whose rules file is to be loaded.
    pub open spec fn due(&self, worktrees: Seq<(u64, Option<RulesEntry>)>, n: nat) -> Seq<
        (u64, Seq<char>, u64),
    >
        decreases n,
    {
        if n == 0 {
            Seq::empty()
        } else {
            let before = self.due(worktrees, (n - 1) as nat);
            let (worktree, entry) = worktrees[n - 1];
            if self.is_due(worktree, entry) {
                before.push((worktree, ((entry->0).abs_path->0)@, (entry->0).mtime->0))
            } else {
                before
            }
        }
    }

    /// The rules files to load, each with its worktree, its path and its time,
    /// given what every worktree has at the path of its rules file.
    pub fn all_to_load(&self, worktrees: &Vec<(u64, Option<RulesEntry>)>) -> (r: Vec<
        (u64, String, u64),
    >)
        ensures
            r@.map_values(|load: (u64, String, u64)| (load.0, load.1@, load.2)) == self.due(
                worktrees@,
                worktrees@.len(),
            ),
    {
        let mut r: Vec<(u64, String, u64)> = Vec::new();
        let mut n: usize = 0;
        let ghost model = |load: (u64, String, u64)| (load.0, load.1@, load.2);
        assert(r@.map_values(model) =~= self.due(worktrees@, 0));
        while n < worktrees.len()
            invariant
                n <= worktrees@.len(),
                model == (|load: (u64, String, u64)| (load.0, load.1@, load.2)),
                r@.map_values(model) == self.due(worktrees@, n as nat),
            decreases worktrees@.len() - n,
        {
            let ghost before = r@;
            let worktree: u64 = worktrees[n].0;
            if let Some((path, mtime)) = self.to_load(worktree, &worktrees[n].1) {
                r.push((worktree, path, mtime));
                assert(r@.map_values(model) =~= before.map_values(model).push(
                    model(r@[before.len() as int]),
                ));
            }
            n = n + 1;
        }
        r
    }

    /// Keeps a rules file that was loaded.
    pub fn loaded(&mut self, worktree: u64, file: RulesFile)
        ensures
            final(self).rules_files@ == old(self).rules_files@.insert(worktree, file),
    {
        self.rules_files.insert(worktree, file);
    }
}

/// A rules file that was loaded is not due again until its time changes.
pub proof fn law_loaded_is_not_due(
    before: RulesSet,
    after: RulesSet,
    worktree: u64,
    file: RulesFile,
    entry: RulesEntry,
)
    requires
        after.rules_files@ == before.rules_files@.insert(worktree, file),
        entry.mtime == Some(file.mtime),
    ensures
        !after.is_due(worktree, Some(entry)),
{
}

/// A rules file with a path is due if it was never loaded or has another time than
/// when it was; what is no file, or has no path or no time, is never due.
pub proof fn law_when_rules_are_due(set: RulesSet, worktree: u64, entry: RulesEntry)
    ensures
        set.is_due(worktree, Some(entry)) ==> entry.is_file && entry.abs_path is Some
            && entry.mtime is Some,
        entry.is_file && entry.abs_path is Some && entry.mtime is Some
            && !set.rules_files@.contains_key(worktree) ==> set.is_due(worktree, Some(entry)),
        entry.is_file && entry.abs_path is Some && entry.mtime is Some
            && set.rules_files@.contains_key(worktree) ==> (set.is_due(worktree, Some(entry)) <==> Some(
            set.rules_files@[worktree].mtime,
        ) != entry.mtime),
        !set.is_due(worktree, None),
{
}

/// Every rules file that is due is loaded, in the order of the worktrees, and no other.
pub proof fn law_all_due_are_loaded(
    set: RulesSet,
    worktrees: Seq<(u64, Option<RulesEntry>)>,
    n: nat,
)
    requires
        n <= worktrees.len(),
    ensures
        set.due(worktrees, n) == worktrees.take(n as int).filter(
            |worktree: (u64, Option<RulesEntry>)| set.is_due(worktree.0, worktree.1),
        ).map_values(
            |worktree: (u64, Option<RulesEntry>)|
                (worktree.0, ((worktree.1->0).abs_path->0)@, (worktree.1->0).mtime->0),
        ),
    decreases n,
{
    reveal(Seq::filter);
    let is_due = |worktree: (u64, Option<RulesEntry>)| set.is_due(worktree.0, worktree.1);
    let load = |worktree: (u64, Option<RulesEntry>)|
        (worktree.0, ((worktree.1->0).abs_path->0)@, (worktree.1->0).mtime->0);
    if n > 0 {
        law_all_due_are_loaded(set, worktrees, (n - 1) as nat);
        assert(worktrees.take(n as int).drop_last() =~= worktrees.take(n - 1));
        let before = worktrees.take(n - 1).filter(is_due);
        if is_due(worktrees[n - 1]) {
            assert(before.push(worktrees[n - 1]).map_values(load) =~= before.map_values(load).push(
                load(worktrees[n - 1]),
            ));
        }
    } else {
        assert(worktrees.take(0).filter(is_due).map_values(load) =~= Seq::empty());
    }
}

} // verus!
