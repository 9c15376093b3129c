//! Settings, migrations, rules files, release channels and bug reports.
use std::sync::Mutex;
use zed_parts::agent_rules::{
    load_worktree_rules_file, rules_file_name, rules_files_for_path, worktree_rules_file,
    WhenUsed, Worktree, WorktreeEntry,
};
use zed_parts::edit_prediction_context::occurrences::Occurrences;
use zed_parts::edit_prediction_context::sliding_window::{Ratio, SlidingWindow};
use zed_parts::live_context::{editor_to_follow, excerpts_by_buffer, group_excerpts, key_context};
use zed_parts::migrate::{
    check_should_migrate, known_result, should_migrate, write_plan, CheckStep, MigrationBanner,
    MigrationEvent, MigrationType, ToolbarItemLocation, WritePlan,
};
use zed_parts::migrator::patterns::SETTINGS_ASSISTANT_MODEL_NAMES;
use zed_parts::migrator::pending::{
    migrate_google_model_names, model_name_capture, settings_patterns, CapturedNode,
};
use zed_parts::release_channel::{AppBuildInfo, AppVersion, ReleaseChannel};
use zed_parts::rules_set::{RulesEntry, RulesFile, RulesSet};
use zed_parts::settings::keymap_file::{
    build_key_binding, generate_alternatives, register_bindings, ActionAlternative,
    ActionRequest, BlockOutcome, KeymapAction, KeymapBinding, KeymapBlock, KeymapItem,
};
use zed_parts::settings::settings_diagnostics::{
    describe_diagnostics, SettingsDiagnostic, SettingsPathRef,
};
use zed_parts::text::{is_blank, parse_u32, push_decimal, trim};
use zed_parts::zlog::bug::{clear_bug_handler, log_line, set_bug_handler, BugHandler, BugSite};

/// The words of a text as hashes.
fn hashes(text: &str) -> Vec<u32> {
    text.split_whitespace().map(|word| word.bytes().fold(0, |h, b| h * 31 + b as u32)).collect()
}

struct CheckedSlidingWindow {
    inner: SlidingWindow<u32>,
    target: Vec<u32>,
    text: String,
    first_line: u32,
    last_line: u32,
}

impl CheckedSlidingWindow {
    fn new(target: &str) -> Self {
        CheckedSlidingWindow {
            inner: SlidingWindow::new(vec![Occurrences::new(hashes(target))]),
            target: hashes(target),
            text: String::new(),
            first_line: 0,
            last_line: 0,
        }
    }

    fn push_back(&mut self, line: &str) {
        self.inner.push_back(self.last_line, hashes(line));
        self.text.push_str(line);
        self.text.push('\n');
        self.last_line += 1;
        self.check_after_mutation();
    }

    fn pop_front(&mut self) {
        assert_eq!(self.inner.pop_front(), self.first_line);
        self.text.drain(0..self.text.find("\n").unwrap() + 1);
        self.first_line += 1;
        self.check_after_mutation();
    }

    fn check_after_mutation(&self) {
        let window = hashes(&self.text);
        let mut left = self.target.clone();
        let mut shared = 0;
        for hash in &window {
            if let Some(at) = left.iter().position(|other| other == hash) {
                left.remove(at);
                shared += 1;
            }
        }
        let smaller = window.len().min(self.target.len()) as u32;
        let union = (window.len() + self.target.len()) as u32 - shared;
        assert_eq!(
            self.inner.weighted_overlap_coefficient(),
            vec![Ratio { numerator: shared, denominator: smaller }],
            "weighted_overlap_coefficient"
        );
        assert_eq!(
            self.inner.weighted_jaccard_similarity(),
            vec![Ratio { numerator: shared, denominator: union }],
            "weighted_jaccard_similarity"
        );
    }
}

#[test]
fn test_sliding_window() {
    let mut checked_window = CheckedSlidingWindow::new("a b c d");

    checked_window.push_back("a");
    checked_window.pop_front();

    checked_window.push_back("a b");
    checked_window.push_back("a");
    checked_window.pop_front();
    checked_window.pop_front();

    checked_window.push_back("a b");
    checked_window.push_back("a b c");
    checked_window.pop_front();
    checked_window.push_back("a b c d");
    checked_window.pop_front();
    checked_window.pop_front();
}

#[test]
fn windows_can_be_emptied() {
    let mut window: SlidingWindow<u8> = SlidingWindow::with_capacity(
        vec![Occurrences::new(hashes("a b")), Occurrences::new(hashes("c"))],
        4,
    );
    window.push_back(1, hashes("a c x"));
    let ratio = |numerator: u32, denominator: u32| Ratio { numerator, denominator };
    assert_eq!(window.weighted_overlap_coefficient(), vec![ratio(1, 2), ratio(1, 1)]);
    assert_eq!(window.weighted_jaccard_similarity(), vec![ratio(1, 4), ratio(1, 3)]);
    window.clear();
    assert_eq!(window.weighted_overlap_coefficient(), vec![ratio(0, 0), ratio(0, 0)]);
    assert_eq!(window.weighted_jaccard_similarity(), vec![ratio(0, 2), ratio(0, 1)]);
}

type Handler<'a> = Box<dyn Fn(&str, &str, &str, u32) + 'a>;

#[test]
fn test_bug_macro_only_reports_once() {
    let reports = Mutex::new(Vec::new());
    let mut slot: BugHandler<Handler<'_>> = BugHandler { handler: None };
    clear_bug_handler(&mut slot);
    set_bug_handler(
        &mut slot,
        Box::new(|message: &str, module: &str, file: &str, line: u32| {
            reports.lock().unwrap().push((
                message.to_string(),
                module.to_string(),
                file.to_string(),
                line,
            ));
        }),
    );

    // Test in a loop - only the first iteration should report
    let mut site = BugSite::new();
    for i in 0..3 {
        let called =
            site.report(&slot, &format!("Test bug message: {}", i), "module", "file.rs", 12);
        assert_eq!(called, i == 0);
    }

    // Check that only one report was made
    let captured_reports = reports.lock().unwrap();
    assert_eq!(captured_reports.len(), 1);
    assert_eq!(captured_reports[0].0, "Test bug message: 0");
    assert_eq!(captured_reports[0].1, "module");
    assert_eq!(captured_reports[0].2, "file.rs");
    assert_eq!(captured_reports[0].3, 12);
}

#[test]
fn test_bug_macro_different_locations() {
    let reports = Mutex::new(Vec::new());
    let mut slot: BugHandler<Handler<'_>> = BugHandler { handler: None };
    set_bug_handler(
        &mut slot,
        Box::new(|message: &str, _module: &str, _file: &str, _line: u32| {
            reports.lock().unwrap().push(message.to_string());
        }),
    );

    // First location
    BugSite::new().report(&slot, "Bug at location 1", "m", "f", 1);

    // Second location
    BugSite::new().report(&slot, "Bug at location 2", "m", "f", 2);

    // Third location
    BugSite::new().report(&slot, "Bug at location 3", "m", "f", 3);

    // Check that all three locations reported
    let captured_reports = reports.lock().unwrap();
    assert_eq!(captured_reports.len(), 3);
    assert_eq!(captured_reports[0], "Bug at location 1");
    assert_eq!(captured_reports[1], "Bug at location 2");
    assert_eq!(captured_reports[2], "Bug at location 3");
}

#[test]
fn test_bug_macro_with_logger() {
    let reports = Mutex::new(Vec::new());
    let mut slot: BugHandler<Handler<'_>> = BugHandler { handler: None };
    set_bug_handler(
        &mut slot,
        Box::new(|message: &str, _module: &str, _file: &str, _line: u32| {
            reports.lock().unwrap().push(message.to_string());
        }),
    );

    let message = format!("Bug with logger: {}", "custom");
    BugSite::new().report(&slot, &message, "test_scope", "f", 1);

    let captured_reports = reports.lock().unwrap();
    assert_eq!(captured_reports.len(), 1);
    assert_eq!(captured_reports[0], "Bug with logger: custom");
    assert_eq!(log_line(&message), "bug: Bug with logger: custom");
}

#[test]
fn test_bug_macro_without_handler() {
    // Clear any existing handler
    let mut slot: BugHandler<Handler<'_>> = BugHandler { handler: None };
    clear_bug_handler(&mut slot);

    // This should not panic, just log
    let called = BugSite::new().report(&slot, "Bug without handler", "m", "f", 1);

    // If we get here, the test passed (no panic occurred)
    assert!(!called);
}

#[test]
fn release_channels_have_names() {
    for (channel, name, display, id, query) in [
        (ReleaseChannel::Dev, "dev", "Zed Dev", "dev.zed.Zed-Dev", None),
        (ReleaseChannel::Nightly, "nightly", "Zed Nightly", "dev.zed.Zed-Nightly", Some("nightly=1")),
        (ReleaseChannel::Preview, "preview", "Zed Preview", "dev.zed.Zed-Preview", Some("preview=1")),
        (ReleaseChannel::Stable, "stable", "Zed", "dev.zed.Zed", None),
    ] {
        assert_eq!(channel.dev_name(), name);
        assert_eq!(channel.display_name(), display);
        assert_eq!(channel.app_id(), id);
        assert_eq!(channel.release_query_param(), query);
        assert!(ReleaseChannel::from_str(name).unwrap() == channel);
        assert_eq!(channel.poll_for_updates(), name != "dev");
    }
    assert!(ReleaseChannel::from_str("beta").is_err());
    assert_eq!(ReleaseChannel::configured_name(true, Some("dev"), "stable"), "dev");
    assert_eq!(ReleaseChannel::configured_name(false, Some("dev"), "stable"), "stable");
    assert_eq!(AppVersion::init("1.0", None), "1.0");
    assert_eq!(AppVersion::init("1.0", Some("2.0")), "2.0");
    let info = AppBuildInfo { commit_sha: Some("abc".to_string()), had_modified_files: true };
    assert_eq!(info.to_string(), "abc with modified files");
    assert_eq!(AppBuildInfo::or_default(None).to_string(), "No build info");
}

fn diagnostic(start: usize, end: usize, message: &str) -> SettingsDiagnostic {
    SettingsDiagnostic { range: start..end, message: message.to_string() }
}

#[test]
fn diagnostics_say_where_they_are() {
    let path = SettingsPathRef::Path("/a'b.json");
    assert_eq!(path.to_string(), format!("{:?}", std::path::Path::new("/a'b.json")));
    let builtin = SettingsPathRef::Builtin("default.json");
    let content = "one\ntwo\nthree\n";
    assert_eq!(builtin.diagnostics_to_string(10, content, vec![]), None);
    assert_eq!(
        builtin.diagnostics_to_string(10, content, vec![diagnostic(4, 7, "bad")]).unwrap(),
        "In built-in file default.json at 2:1-4: bad"
    );
    assert_eq!(
        builtin
            .diagnostics_to_string(
                10,
                content,
                vec![diagnostic(4, 99, "second"), diagnostic(1, 5, "first")]
            )
            .unwrap(),
        "2 errors in built-in file default.json:\n\nat 1:2-2:2: first\n\nat 2:1-4:1: second"
    );
    assert_eq!(
        builtin.diagnostics_to_string(0, content, vec![diagnostic(4, 7, "bad")]),
        None
    );
    let three = || vec![diagnostic(8, 9, "c"), diagnostic(4, 5, "b"), diagnostic(0, 1, "a")];
    assert_eq!(
        builtin.diagnostics_to_string(2, content, three()).unwrap(),
        "2 errors in built-in file default.json:\n\nat 1:1-2: a\n\nat 2:1-2: b\n\
         ... 1 more error omitted"
    );
    assert_eq!(
        describe_diagnostics("x", 1, content, three()).unwrap(),
        "1 errors in x:\n\nat 1:1-2: a\n... 2 more errors omitted"
    );
}

fn binding(action: KeymapAction) -> KeymapBinding {
    KeymapBinding { keystrokes: "up".to_string(), action, action_range: 2..5 }
}

#[test]
fn actions_are_names_arrays_or_null() {
    let name = KeymapItem { string: Some("a::B".to_string()), json: "\"a::B\"".to_string() };
    let data = KeymapItem { string: None, json: "{}".to_string() };
    assert!(matches!(
        build_key_binding(None, &binding(KeymapAction::Null)),
        Ok(ActionRequest::NoAction)
    ));
    assert!(matches!(
        build_key_binding(None, &binding(KeymapAction::Name("a::B".to_string()))),
        Ok(ActionRequest::Named(name)) if name == "a::B"
    ));
    let pair = KeymapAction::Array(vec![name, data]);
    assert_eq!(pair.to_string(), "\"a::B\", {}");
    assert!(matches!(
        build_key_binding(None, &binding(pair)),
        Ok(ActionRequest::NamedWithData(name)) if name == "a::B"
    ));
    let error = build_key_binding(Some("Editor"), &binding(KeymapAction::Other("3".to_string())));
    match error {
        Err(diagnostic) => {
            assert_eq!(diagnostic.range, 2..5);
            assert!(diagnostic.message.starts_with(
                "Invalid binding for \"up\" in context \"Some(\"Editor\")\""
            ), "{}", diagnostic.message);
        }
        Ok(_) => panic!("a number is no action"),
    }
    let block = KeymapBlock { context: None, use_key_equivalents: Some(true), bindings: vec![] };
    assert!(block.translates_keys() && block.bindings().is_empty());
}

#[test]
fn registration_collects_all_errors() {
    let path = SettingsPathRef::Builtin("k.json");
    assert!(register_bindings(path, "", vec![BlockOutcome::Bound(vec![None])]).is_ok());
    let error = register_bindings(
        path,
        "abc",
        vec![
            BlockOutcome::Bound(vec![None, Some(diagnostic(1, 2, "x"))]),
            BlockOutcome::ContextRefused(diagnostic(0, 1, "y")),
        ],
    );
    assert_eq!(
        error.unwrap_err(),
        "2 errors in built-in file k.json:\n\nat 1:1-2: y\n\nat 1:2-3: x"
    );
    let alternatives =
        generate_alternatives(vec!["a".to_string()], &vec![("b".to_string(), "a".to_string())]);
    assert_eq!(alternatives.len(), 4);
    assert!(matches!(
        &alternatives[3],
        ActionAlternative::Deprecated { name, message }
            if name == "b" && message == "Deprecated, use a"
    ));
}

#[test]
fn renamed_models_are_migrated() {
    let contents = "{\"model\": \"gemini-2.0-pro-exp\"}";
    let start = contents.find("gemini").unwrap();
    let nodes = vec![
        CapturedNode { index: 0, start_byte: 1, end_byte: 8 },
        CapturedNode { index: 3, start_byte: start, end_byte: start + 18 },
    ];
    let names = |model_name: usize| -> Vec<String> {
        let mut names = vec!["other".to_string(); 4];
        names[model_name] = "model_name".to_string();
        names
    };
    assert_eq!(model_name_capture(&names(3)), Some(3));
    assert_eq!(model_name_capture(&vec![]), None);
    let (range, name) = migrate_google_model_names(contents, &nodes, &names(3)).unwrap();
    assert_eq!(range, start..start + 18);
    assert_eq!(name, "gemini-2.5-pro-preview-03-25");
    assert!(migrate_google_model_names(contents, &nodes, &names(0)).is_none());
    assert!(migrate_google_model_names(contents, &nodes, &vec![]).is_none());
    // What was migrated is not migrated again.
    let settled = "gemini-2.5-pro-preview-03-25";
    let node = vec![CapturedNode { index: 0, start_byte: 0, end_byte: settled.len() }];
    assert!(migrate_google_model_names(settled, &node, &names(0)).is_none());
    let language: tree_sitter::Language = tree_sitter_json::LANGUAGE.into();
    let patterns = settings_patterns();
    assert_eq!(patterns.len(), 3);
    assert_eq!(patterns[0], SETTINGS_ASSISTANT_MODEL_NAMES);
    for pattern in patterns {
        let query = tree_sitter::Query::new(&language, pattern).unwrap();
        let names = query.capture_names().iter().map(|name| name.to_string()).collect();
        assert_eq!(model_name_capture(&names), query.capture_index_for_name("model_name"));
        assert!(model_name_capture(&names).is_some());
    }
}

fn entry(path: &[&str], is_dir: bool) -> WorktreeEntry {
    WorktreeEntry {
        path: path.iter().map(|part| part.to_string()).collect(),
        is_dir,
        is_file: !is_dir,
    }
}

fn path(parts: &[&str]) -> Vec<String> {
    parts.iter().map(|part| part.to_string()).collect()
}

#[test]
fn rules_apply_to_what_is_below_them() {
    let worktree = Worktree {
        id: 4,
        is_single_file: false,
        entries: vec![
            entry(&[], true),
            entry(&[".rules"], false),
            entry(&["RULES.txt"], false),
            entry(&["a"], true),
            entry(&["a", ".clinerules"], true),
            entry(&["a", ".github", "copilot-instructions.md"], false),
            entry(&["a", "b"], true),
            entry(&["a", "b", "main.rs"], false),
        ],
    };
    let rules = rules_files_for_path(&worktree, &path(&["a", "b", "main.rs"]), "RULES.txt");
    let paths: Vec<String> = rules.iter().map(|(file, _)| file.path.join("/")).collect();
    assert_eq!(paths, vec!["a/.github/copilot-instructions.md", ".rules"]);
    assert!(rules.iter().all(|(file, _)| file.worktree_id == 4));
    assert_eq!(worktree_rules_file(&worktree, "RULES.txt"), Some(1));
    let single = Worktree { is_single_file: true, ..worktree };
    assert!(rules_files_for_path(&single, &path(&["a", "b", "main.rs"]), "RULES.txt").is_empty());
    assert_eq!(rules_file_name(0, "RULES.txt"), ".rules");
}

#[test]
fn rules_files_are_known_by_their_names() {
    match WhenUsed::for_path("a/b/.cursorrules", "RULES.txt") {
        Some(WhenUsed::WithinDirectory(directory)) => assert_eq!(directory, "a/b"),
        None => panic!("a rules file"),
    }
    assert!(WhenUsed::for_path("a/b/RULES.txt", "RULES.txt").is_some());
    assert!(WhenUsed::for_path("a/b/main.rs", "RULES.txt").is_none());
}

#[test]
fn rules_are_loaded_when_they_change() {
    let mut set = RulesSet::new();
    let found = |mtime: u64| {
        Some(RulesEntry { is_file: true, mtime: Some(mtime), abs_path: Some("/r".to_string()) })
    };
    assert_eq!(set.to_load(1, &found(5)), Some(("/r".to_string(), 5)));
    set.loaded(1, RulesFile { path: "/r".to_string(), mtime: 5, content: "x".to_string() });
    assert_eq!(set.to_load(1, &found(5)), None);
    assert_eq!(set.to_load(1, &found(6)), Some(("/r".to_string(), 6)));
    assert_eq!(set.to_load(2, &found(5)), Some(("/r".to_string(), 5)));
    assert_eq!(set.to_load(2, &None), None);
    let directory =
        Some(RulesEntry { is_file: false, mtime: Some(5), abs_path: Some("/r".to_string()) });
    assert_eq!(set.to_load(2, &directory), None);
}

#[test]
fn banners_follow_the_open_file() {
    let mut banner = MigrationBanner::new();
    let location = banner.set_active_pane_item(Some("/k"), "/k", "/s");
    assert_eq!(location, ToolbarItemLocation::Hidden);
    assert_eq!(banner.migration_type, Some(MigrationType::Keymap));
    let changed = |migrated: bool| MigrationEvent::ContentChanged {
        migration_type: MigrationType::Keymap,
        migrated,
    };
    assert_eq!(banner.handle_notification(changed(true)), Some(ToolbarItemLocation::Secondary));
    assert_eq!(banner.handle_notification(changed(false)), Some(ToolbarItemLocation::Hidden));
    assert_eq!(
        banner.handle_check(MigrationType::Keymap, Some((1, true))),
        Some(ToolbarItemLocation::Secondary)
    );
    assert_eq!(banner.handle_check(MigrationType::Keymap, Some((1, false))), None);
    assert_eq!(banner.handle_check(MigrationType::Settings, Some((1, true))), None);
    banner.set_active_pane_item(Some("/s"), "/k", "/s");
    assert_eq!(banner.migration_type, Some(MigrationType::Settings));
    assert_eq!(banner.handle_notification(changed(true)), None);
    banner.set_active_pane_item(Some("/x"), "/k", "/s");
    assert_eq!(banner.migration_type, None);
    for path in ["/k/", "/./k", "//k", "/k/."] {
        banner.set_active_pane_item(Some(path), "/k", "/s");
        assert_eq!(banner.migration_type, Some(MigrationType::Keymap), "{path}");
    }
    for path in ["k", "/x/../k", "/K", "/"] {
        banner.set_active_pane_item(Some(path), "/k", "/s");
        assert_eq!(banner.migration_type, None, "{path}");
    }
    assert_eq!(
        MigrationType::Settings.banner_text(),
        "Your settings file uses deprecated settings which can be automatically updated. \
         A backup will be saved to"
    );
}

#[test]
fn files_are_checked_once_per_change() {
    assert_eq!(should_migrate(None, Some((1, true)), Some(true)), None);
    assert_eq!(should_migrate(Some(1), Some((1, true)), None), Some((1, true)));
    assert_eq!(should_migrate(Some(2), Some((1, true)), Some(false)), Some((2, false)));
    assert_eq!(should_migrate(Some(2), None, None), None);
    assert_eq!(known_result(Some((1, true)), 2), None);
    assert!(matches!(check_should_migrate(None), CheckStep::Wait));
    assert!(matches!(check_should_migrate(Some(None)), CheckStep::Start(None)));
    assert_eq!(write_plan(false, true), WritePlan::Nothing);
    assert_eq!(write_plan(true, true), WritePlan::BackupAndReplace);
    assert_eq!(write_plan(true, false), WritePlan::Create);
}

#[test]
fn definitions_are_grouped_by_buffer() {
    let groups = group_excerpts(&vec![(1, 0..2), (2, 3..4), (1, 9..12)]);
    assert_eq!(groups.len(), 2);
    assert_eq!(groups[0].buffer, 1);
    assert_eq!(groups[0].ranges, vec![0..2, 9..12]);
    assert_eq!(groups[1].ranges, vec![3..4]);
    assert_eq!(key_context(true), "EmptyPane");
    assert_eq!(key_context(false), "LiveContext");
}

#[test]
fn worktree_rules_are_trimmed() {
    let worktree = Worktree {
        id: 1,
        is_single_file: false,
        entries: vec![entry(&[], true), entry(&[".windsurfrules"], false)],
    };
    let file =
        load_worktree_rules_file(&worktree, "OTHER", "/w/.windsurfrules".to_string(), "\n be kind \n")
            .unwrap();
    assert_eq!(file.path_in_worktree, vec![".windsurfrules"]);
    assert_eq!(file.abs_path, "/w/.windsurfrules");
    assert_eq!(file.text, "be kind");
    let empty = Worktree { id: 1, is_single_file: false, entries: vec![entry(&[], true)] };
    assert!(load_worktree_rules_file(&empty, "OTHER", String::new(), "x").is_none());
}

#[test]
fn texts_are_trimmed() {
    assert_eq!(trim(" \u{2003}a b\u{a0}\n"), "a b");
    assert_eq!(trim(&trim("\ta ")), "a");
    assert_eq!(trim("  "), "");
    assert!(is_blank("\u{3000}") && !is_blank(" x"));
    let mut number = String::new();
    push_decimal(&mut number, 4_294_967_295);
    assert_eq!(number, "4294967295");
    assert_eq!(parse_u32(&number), Some(4_294_967_295));
    assert_eq!(parse_u32("+7"), Some(7));
    assert_eq!(parse_u32("4294967296"), None);
    assert_eq!(parse_u32(""), None);
}

#[test]
fn every_worktree_is_looked_at() {
    let mut set = RulesSet::new();
    set.loaded(2, RulesFile { path: "/b".to_string(), mtime: 9, content: String::new() });
    let found = |path: &str, mtime: u64| {
        Some(RulesEntry { is_file: true, mtime: Some(mtime), abs_path: Some(path.to_string()) })
    };
    let loads = set.all_to_load(&vec![(1, found("/a", 9)), (2, found("/b", 9)), (3, None)]);
    assert_eq!(loads, vec![(1, "/a".to_string(), 9)]);
}

#[test]
fn failed_requests_show_nothing() {
    let groups = excerpts_by_buffer(&vec![Some(vec![(1, 0..2)]), None, Some(vec![(1, 4..5)])]);
    assert_eq!(groups.len(), 1);
    assert_eq!(groups[0].ranges, vec![0..2, 4..5]);
    assert_eq!(editor_to_follow(true, Some(3)), None);
    assert_eq!(editor_to_follow(false, Some(3)), Some(3));
}
