//! The banner that offers to migrate a keymap or settings file.
use crate::paths::{is_portable, path_parts, same_path, tells_same_path};
use vstd::prelude::*;
use vstd::string::*;

verus! {

#[derive(Debug, Copy, Clone, PartialEq, Eq, Structural)]
pub enum MigrationType {
    Keymap,
    Settings,
}

/// Where the banner is shown in the toolbar.
#[derive(Debug, Copy, Clone, PartialEq, Eq, Structural)]
pub enum ToolbarItemLocation {
    Hidden,
    Secondary,
}

#[derive(Debug, Copy, Clone, PartialEq, Eq, Structural)]
pub enum MigrationEvent {
    ContentChanged { migration_type: MigrationType, migrated: bool },
}

#[derive(Debug)]
pub struct MigrationBanner {
    /// Populated when the pane's item could have a migration.
    pub migration_type: Option<MigrationType>,
}

/// The result of a check: the time of the file, as a number that differs where
/// the times do, and whether it should be migrated.
pub type CheckResult = Option<(u64, bool)>;

impl MigrationType {
    pub open spec fn file_type_text(self) -> Seq<char> {
        match self {
            MigrationType::Keymap => "keymap"@,
            MigrationType::Settings => "settings"@,
        }
    }

    pub fn file_type(self) -> (r: &'static str)
        ensures
            r@ == self.file_type_text(),
    {
        match self {
            MigrationType::Keymap => "keymap",
            MigrationType::Settings => "settings",
        }
    }

    /// What the banner says before the name of the backup file.
    pub fn banner_text(self) -> (s: String)
        ensures
            s@ == "Your "@ + self.file_type_text()
                + " file uses deprecated settings which can be automatically updated. A backup will be saved to"@,
    {
        let mut s = "Your ".to_owned();
        s.append(self.file_type());
        s.append(
            " file uses deprecated settings which can be automatically updated. A backup will be saved to",
        );
        s
    }
}

/// What could be migrated in a file: the keymap or the settings, by which of their
/// files it is.
pub fn migration_for(is_keymap_file: bool, is_settings_file: bool) -> (r: Option<MigrationType>)
    ensures
        r == if is_keymap_file {
            Some(MigrationType::Keymap)
        } else if is_settings_file {
            Some(MigrationType::Settings)
        } else {
            None
        },
{
    if is_keymap_file {
        Some(MigrationType::Keymap)
    } else if is_settings_file {
        Some(MigrationType::Settings)
    } else {
        None
    }
}

/// Whether a type is what could be migrated in the file at a path.
pub open spec fn is_migration_of(
    migration_type: Option<MigrationType>,
    path: Seq<char>,
    keymap_file: Seq<char>,
    settings_file: Seq<char>,
) -> bool {
    match migration_type {
        Some(MigrationType::Keymap) => tells_same_path(path, keymap_file, true),
        Some(MigrationType::Settings) => tells_same_path(path, keymap_file, false)
            && tells_same_path(path, settings_file, true),
        None => tells_same_path(path, keymap_file, false) && tells_same_path(
            path,
            settings_file,
            false,
        ),
    }
}

impl MigrationBanner {
    pub fn new() -> (r: Self)
        ensures
            r.migration_type is None,
    {
        MigrationBanner { migration_type: None }
    }

    /// Takes note of the file that is open, given by its path. The banner is
    /// hidden until a check of the file says otherwise; the banner's type says
    /// which check to start.
    pub fn set_active_pane_item(
        &mut self,
        target: Option<&str>,
        keymap_file: &str,
        settings_file: &str,
    ) -> (location: ToolbarItemLocation)
        ensures
            match target {
                Some(path) => is_migration_of(
                    final(self).migration_type,
                    path@,
                    keymap_file@,
                    settings_file@,
                ),
                None => final(self).migration_type is None,
            },
            location == ToolbarItemLocation::Hidden,
    {
        self.migration_type = match target {
            Some(path) => migration_for(
                same_path(path, keymap_file),
                same_path(path, settings_file),
            ),
            None => None,
        };
        ToolbarItemLocation::Hidden
    }

    /// Where to move the banner when a file's content changed: nowhere unless
    /// that file is open.
    pub fn handle_notification(&self, event: MigrationEvent) -> (r: Option<ToolbarItemLocation>)
        ensures
            r == match event {
                MigrationEvent::ContentChanged { migration_type, migrated } => {
                    if self.migration_type != Some(migration_type) {
                        None
                    } else if migrated {
                        Some(ToolbarItemLocation::Secondary)
                    } else {
                        Some(ToolbarItemLocation::Hidden)
                    }
                },
            },
    {
        match event {
            MigrationEvent::ContentChanged { migration_type, migrated } => {
                if !self.is_open(migration_type) {
                    None
                } else if migrated {
                    Some(ToolbarItemLocation::Secondary)
                } else {
                    Some(ToolbarItemLocation::Hidden)
                }
            },
        }
    }

    /// Where to move the banner when a check has ended. It is only shown if the
    /// file is still open.
    pub fn handle_check(&self, checked: MigrationType, result: CheckResult) -> (r: Option<
        ToolbarItemLocation,
    >)
        ensures
            r == if (result matches Some((_, should_migrate)) && should_migrate)
                && self.migration_type == Some(checked) {
                Some(ToolbarItemLocation::Secondary)
            } else {
                None
            },
    {
        match result {
            Some((_, should_migrate)) => if should_migrate && self.is_open(checked) {
                Some(ToolbarItemLocation::Secondary)
            } else {
                None
            },
            None => None,
        }
    }

    /// Whether the file of a type is open.
    fn is_open(&self, migration_type: MigrationType) -> (r: bool)
        ensures
            r == (self.migration_type == Some(migration_type)),
    {
        match self.migration_type {
            Some(open) => open == migration_type,
            None => false,
        }
    }
}

/// The result that holds without reading a file again: the last one, where the
/// file has not changed since.
pub fn known_result(last_result: CheckResult, mtime: u64) -> (r: CheckResult)
    ensures
        r == if last_result matches Some((last, _)) && last == mtime {
            last_result
        } else {
            None
        },
{
    match last_result {
        Some((last_mtime, should_migrate)) => if last_mtime == mtime {
            Some((last_mtime, should_migrate))
        } else {
            None
        },
        None => None,
    }
}

/// The result of a check. `mtime` is the time of the file, if it has one, and
/// `migrates` whether its text, once read, has a migration.
pub fn should_migrate(mtime: Option<u64>, last_result: CheckResult, migrates: Option<bool>) -> (r:
    CheckResult)
    ensures
        r == match mtime {
            None => None,
            Some(mtime) => if last_result matches Some((last, _)) && last == mtime {
                last_result
            } else {
                match migrates {
                    Some(should_migrate) => Some((mtime, should_migrate)),
                    None => None,
                }
            },
        },
{
    let mtime: u64 = match mtime {
        Some(mtime) => mtime,
        None => {
            return None;
        },
    };
    match known_result(last_result, mtime) {
        Some(known) => Some(known),
        None => match migrates {
            Some(should_migrate) => Some((mtime, should_migrate)),
            None => None,
        },
    }
}

/// A check to wait for: the one that is running, or a new one with the last
/// result.
#[derive(Debug)]
pub enum CheckStep {
    Wait,
    Start(Option<(u64, bool)>),
}

/// Decides whether to start a check: `finished` is the result of the last one,
/// unless it is still running.
pub fn check_should_migrate(finished: Option<CheckResult>) -> (step: CheckStep)
    ensures
        step == match finished {
            None => CheckStep::Wait,
            Some(last_result) => CheckStep::Start(last_result),
        },
{
    match finished {
        None => CheckStep::Wait,
        Some(last_result) => CheckStep::Start(last_result),
    }
}

/// How the text of a migrated file is written.
#[derive(Debug, Copy, Clone, PartialEq, Eq, Structural)]
pub enum WritePlan {
    /// There is no migration.
    Nothing,
    /// The old text goes to the backup file, then the new one to where the path
    /// leads.
    BackupAndReplace,
    /// The new text goes to the path.
    Create,
}

/// Decides how to write a migration: an existing file is backed up first.
pub fn write_plan(has_migration: bool, is_file: bool) -> (plan: WritePlan)
    ensures
        plan == if !has_migration {
            WritePlan::Nothing
        } else if is_file {
            WritePlan::BackupAndReplace
        } else {
            WritePlan::Create
        },
{
    if !has_migration {
        WritePlan::Nothing
    } else if is_file {
        WritePlan::BackupAndReplace
    } else {
        WritePlan::Create
    }
}

/// What could be migrated in a file is told by its path, the keymap's file coming first.
pub proof fn law_migration_of_file(
    migration_type: Option<MigrationType>,
    path: Seq<char>,
    keymap_file: Seq<char>,
    settings_file: Seq<char>,
)
    requires
        is_portable(path),
        is_portable(keymap_file),
        is_portable(settings_file),
        is_migration_of(migration_type, path, keymap_file, settings_file),
    ensures
        migration_type is None <==> path_parts(path) != path_parts(keymap_file) && path_parts(path)
            != path_parts(settings_file),
        migration_type == Some(MigrationType::Keymap) <==> path_parts(path) == path_parts(
            keymap_file,
        ),
{
}

} // verus!
