//! The menus at the cursor.
use zed_parts::editor::code_actions_menu::{
    AvailableCodeAction, CodeActionContents, CodeActionSource, CodeActionsItem, CodeActionsMenu,
    ContextMenuOrigin, DebugScenario, ResolvedTask,
};
use zed_parts::editor::code_context_menus::CodeContextMenu;
use zed_parts::editor::completion_menu::{
    skips_digits, word_search_points, Anchor, Aside, CharKind, CodeLabel, Completion,
    CompletionDocumentation, CompletionMenu, CompletionMenuContents, CompletionRequest,
    CompletionResponse, CompletionSource, CompletionTriggerKind, FetchPlan, InsertTextMode,
    QueriedCompletions, QueryStep, StartSlot, StringMatch, SurroundingWord, WordsCompletionMode,
};
use zed_parts::editor::menu_selection::MenuSelectionChange;


#[test]
fn selections_go_round() {
    assert_eq!(MenuSelectionChange::First.new_selection(2, 5), 0);
    assert_eq!(MenuSelectionChange::Last.new_selection(2, 5), 4);
    assert_eq!(MenuSelectionChange::Next.new_selection(4, 5), 0);
    assert_eq!(MenuSelectionChange::Prev.new_selection(0, 5), 4);
    assert_eq!(MenuSelectionChange::Next.new_selection(1, 5), 2);
    assert_eq!(MenuSelectionChange::Prev.new_selection(1, 5), 0);
    assert_eq!(MenuSelectionChange::Last.new_selection(0, 0), 0);
    assert_eq!(MenuSelectionChange::Prev.new_selection(0, 0), 0);
    assert_eq!(MenuSelectionChange::First.flip(), MenuSelectionChange::Last);
    assert_eq!(MenuSelectionChange::Next.flip().flip(), MenuSelectionChange::Next);
    let mut selected = 0;
    assert!(MenuSelectionChange::Next.apply(&mut selected, 3, true));
    assert_eq!(selected, 2);
    assert!(!MenuSelectionChange::First.apply(&mut selected, 3, true));
}

fn contents() -> CodeActionContents {
    CodeActionContents::new(
        Some(vec![ResolvedTask { source: 1, id: 1, resolved_label: "run\nit".to_string() }]),
        Some(vec![
            AvailableCodeAction { excerpt_id: 1, provider: 2, action: 3, title: "fix".to_string() },
            AvailableCodeAction { excerpt_id: 1, provider: 2, action: 4, title: "a\nlong one".to_string() },
        ]),
        vec![DebugScenario { id: 9, label: "x\ny".to_string() }],
    )
}

fn menu() -> CodeActionsMenu {
    CodeActionsMenu {
        actions: contents(),
        selected_item: 1,
        y_flipped: false,
        deployed_from: Some(CodeActionSource::Indicator(7)),
    }
}

#[test]
fn code_actions_come_after_tasks_and_before_scenarios() {
    let contents = contents();
    assert_eq!(contents.len(), 4);
    assert!(!contents.is_empty());
    assert!(matches!(contents.get(0), Some(CodeActionsItem::Task(task)) if task.id == 1));
    assert!(matches!(contents.get(2), Some(CodeActionsItem::CodeAction(a)) if a.action == 4));
    assert!(matches!(contents.get(3), Some(CodeActionsItem::DebugScenario(s)) if s.id == 9));
    assert!(contents.get(4).is_none());
    assert_eq!(contents.get(2).unwrap().label(), "a\nlong one");
    assert_eq!(contents.tasks().unwrap().len(), 1);
    assert!(CodeActionContents::new(None, None, vec![]).is_empty());
}

#[test]
fn code_actions_are_shown_on_one_line() {
    let menu = menu();
    let rows = menu.render(0..9);
    let texts: Vec<&str> = rows.iter().map(|row| row.text.as_str()).collect();
    assert_eq!(texts, vec!["runit", "fix", "along one", "debug: x\ny"]);
    assert!(rows[1].selected && !rows[0].selected);
    assert_eq!(menu.render(2..3)[0].item_ix, 2);
    assert!(menu.render(7..9).is_empty());
    // "a\nlong one" and "debug: x\ny" have ten characters each: the last wins.
    assert_eq!(menu.widest_item(), Some(3));
}

#[test]
fn menus_know_where_they_were_opened() {
    let mut menu = menu();
    assert_eq!(menu.origin(), ContextMenuOrigin::GutterIndicator(7));
    menu.deployed_from = Some(CodeActionSource::QuickActionBar);
    assert_eq!(menu.origin(), ContextMenuOrigin::QuickActionBar);
    menu.deployed_from = None;
    assert_eq!(menu.origin(), ContextMenuOrigin::Cursor);
    assert!(menu.visible());
    assert!(menu.change_selection(MenuSelectionChange::Last));
    assert_eq!(menu.selected_item, 3);
    let mut context = CodeContextMenu::CodeActions(menu);
    assert!(context.change_selection(MenuSelectionChange::Next, false));
    assert!(matches!(&context, CodeContextMenu::CodeActions(menu) if menu.selected_item == 0));
    let mut empty = CodeContextMenu::Completions(CompletionMenu::new(anchor(1)));
    assert!(!empty.change_selection(MenuSelectionChange::Next, false));
    assert!(!empty.visible());
    assert_eq!(empty.origin(), ContextMenuOrigin::Cursor);
    assert!(empty.render_aside(true, false).is_none());
    assert!(context.render_aside(true, false).is_none());
    assert!(!context.focused());
}

fn anchor(text_anchor: u64) -> Anchor {
    Anchor { buffer_id: Some(1), excerpt_id: 0, text_anchor }
}

fn word(start: usize, end: usize) -> SurroundingWord {
    SurroundingWord { start, end, kind: Some(CharKind::Word) }
}

fn request<'a>(text: &'a str, triggers: &'a Vec<String>) -> CompletionRequest<'a> {
    CompletionRequest {
        cursor_position: anchor(1),
        cursor_offset: 7,
        menu_offset: 7,
        text,
        query_word: word(4, 9),
        replace_word: word(4, 9),
        trigger: None,
        completion_triggers: triggers,
        has_provider: true,
        filter_completions: true,
        words: WordsCompletionMode::Fallback,
    }
}

fn fetch(menu: &mut CompletionMenu, request: &CompletionRequest<'_>) -> FetchPlan {
    match menu.query_completions(request) {
        QueryStep::Fetch(plan) => plan,
        other => panic!("{other:?}"),
    }
}

fn completion(text: &str) -> Completion {
    Completion {
        replace_range: 4..9,
        new_text: text.to_string(),
        label: CodeLabel::plain(text.to_string()),
        icon_path: None,
        color: None,
        documentation: None,
        source: CompletionSource::Lsp { deprecated: None },
        insert_text_mode: None,
    }
}

#[test]
fn completions_are_asked_for_at_the_cursor() {
    let triggers = vec![".".to_string()];
    let mut menu = CompletionMenu::new(anchor(1));
    let mut asked = request("let foobar = 1;", &triggers);
    asked.trigger = Some(".");
    let plan = fetch(&mut menu, &asked);
    assert_eq!(plan.query.as_deref(), Some("foo"));
    assert_eq!(plan.word_to_exclude.as_deref(), Some("fooba"));
    assert_eq!(plan.replace_range, 4..9);
    assert_eq!(plan.trigger_kind, CompletionTriggerKind::TriggerCharacter);
    assert_eq!(plan.trigger_character.as_deref(), Some("."));
    assert!(plan.ask_provider && plan.ask_words && plan.skip_digits);
    assert_eq!(menu.tasks.len(), 1);
    assert_eq!(menu.tasks[0].query.as_deref(), Some("foo"));

    asked.trigger = Some("x");
    asked.query_word.kind = Some(CharKind::Punctuation);
    asked.replace_word.kind = None;
    asked.words = WordsCompletionMode::Disabled;
    let plan = fetch(&mut menu, &asked);
    assert_eq!(plan.query, None);
    assert_eq!(plan.word_to_exclude, None);
    assert_eq!(plan.replace_range, 7..7);
    assert_eq!(plan.trigger_kind, CompletionTriggerKind::Invoked);
    assert_eq!(plan.trigger_character, None);
    assert!(!plan.ask_words);
    // Without a provider words are always looked for.
    asked.has_provider = false;
    assert!(fetch(&mut menu, &asked).ask_words);
}

#[test]
fn a_cursor_elsewhere_gets_no_completions() {
    let triggers = vec![];
    let mut menu = CompletionMenu::new(anchor(1));
    let mut asked = request("let foobar = 1;", &triggers);
    asked.cursor_position.buffer_id = Some(2);
    assert!(matches!(menu.query_completions(&asked), QueryStep::Elsewhere));
    asked.cursor_position = anchor(2);
    asked.menu_offset = 3;
    assert!(matches!(menu.query_completions(&asked), QueryStep::Elsewhere));
    // Another anchor at the same offset is the same place.
    asked.menu_offset = 7;
    assert!(matches!(menu.query_completions(&asked), QueryStep::Fetch(_)));
}

#[test]
fn words_complete_the_completions() {
    let triggers = vec![];
    let mut menu = CompletionMenu::new(anchor(1));
    let mut asked = request("let foobar = 1;", &triggers);
    asked.words = WordsCompletionMode::Enabled;
    let plan = fetch(&mut menu, &asked);
    let words = vec![
        ("food".to_string(), 20..24),
        ("foo".to_string(), 30..33),
        ("fooba".to_string(), 4..9),
    ];
    menu.receive_completions(
        plan,
        Some(vec![
            CompletionResponse { completions: vec![completion("foo")], is_incomplete: false },
            CompletionResponse { completions: vec![completion("fool")], is_incomplete: true },
        ]),
        words,
    );
    let contents = menu.contents.as_ref().unwrap();
    let queried = &contents.queried_completions;
    let texts: Vec<&str> = queried.completions.iter().map(|c| c.new_text.as_str()).collect();
    assert_eq!(texts, vec!["foo", "fool", "food"]);
    assert!(queried.is_incomplete);
    assert_eq!(queried.query.as_deref(), Some("foo"));
    assert_eq!(queried.completions[2].insert_text_mode, Some(InsertTextMode::AsIs));
    assert!(matches!(
        &queried.completions[2].source,
        CompletionSource::BufferWord { word_range, resolved: false } if *word_range == (20..24)
    ));
    assert_eq!(contents.match_candidates[2].id, 2);
    assert_eq!(contents.match_candidates[2].string, "food");
    // Incomplete completions are fetched again.
    assert!(matches!(menu.query_completions(&asked), QueryStep::Fetch(_)));
}

#[test]
fn fallback_words_need_an_empty_answer() {
    let triggers = vec![];
    let mut menu = CompletionMenu::new(anchor(1));
    let asked = request("let foobar = 1;", &triggers);
    let words = || vec![("food".to_string(), 20..24)];
    let plan = fetch(&mut menu, &asked);
    let empty = CompletionResponse { completions: vec![], is_incomplete: false };
    menu.receive_completions(plan, Some(vec![empty]), words());
    assert!(menu.contents.is_none());
    let plan = fetch(&mut menu, &asked);
    menu.receive_completions(plan, Some(vec![]), words());
    assert_eq!(menu.contents.as_ref().unwrap().queried_completions.completions.len(), 1);
    // What goes on where the query ended is filtered.
    assert!(matches!(menu.query_completions(&asked), QueryStep::Filter));
    let plan = {
        let mut other = request("let barfoo = 1;", &triggers);
        other.cursor_offset = 6;
        other.menu_offset = 6;
        fetch(&mut menu, &other)
    };
    assert_eq!(plan.query.as_deref(), Some("ba"));
    menu.receive_completions(plan, None, words());
    assert!(menu.contents.is_some());
}

#[test]
fn completions_are_shown_with_what_is_known_of_them() {
    let mut plain = completion("foo");
    plain.documentation = Some(CompletionDocumentation::SingleLine(" \u{2003}\t".to_string()));
    plain.icon_path = Some("icon.svg".to_string());
    let mut rich = completion("fool");
    rich.label = CodeLabel { text: "fn fool".to_string(), filter_range: 3..7 };
    rich.documentation = Some(CompletionDocumentation::SingleLineAndMultiLinePlainText {
        single_line: "a fool".to_string(),
        plain_text: Some("a fool\nindeed".to_string()),
    });
    rich.color = Some(0xff0000);
    rich.icon_path = Some("icon.svg".to_string());
    rich.source = CompletionSource::Lsp { deprecated: Some(true) };
    let mut contents = CompletionMenuContents::new_completions(QueriedCompletions {
        completions: vec![plain, rich],
        query: None,
        is_incomplete: false,
    });
    assert_eq!(contents.match_candidates[1].string, "fool");
    assert!(contents.entries.is_empty());
    contents.entries = vec![
        StringMatch { candidate_id: 1, ranges: vec![0..2, 3..4], string: "fool".to_string() },
        StringMatch { candidate_id: 0, ranges: vec![], string: "foo".to_string() },
    ];
    let rows = contents.render(0..2, true);
    assert_eq!(rows[0].bold, vec![3..5, 6..7]);
    assert!(rows[0].deprecated && rows[0].selected && !rows[1].deprecated);
    assert_eq!(rows[0].documentation_label.as_deref(), Some("a fool"));
    assert!(matches!(rows[0].start_slot, Some(StartSlot::Color(0xff0000))));
    assert_eq!(rows[1].candidate_id, 0);
    assert_eq!(rows[1].documentation_label, None);
    assert!(matches!(&rows[1].start_slot, Some(StartSlot::Icon(path)) if path == "icon.svg"));
    assert_eq!(contents.last_rendered_range, Some(0..2));
    assert_eq!(contents.render(0..1, false)[0].documentation_label, None);

    assert!(matches!(
        contents.render_aside(true, true),
        Some(Aside::PlainText(text)) if text == "a fool\nindeed"
    ));
    assert!(contents.render_aside(false, false).is_none());
    contents.queried_completions.completions[1].documentation =
        Some(CompletionDocumentation::MultiLineMarkdown("*fool*".to_string()));
    assert!(contents.render_aside(true, true).is_none());
    assert!(matches!(
        contents.render_aside(true, false),
        Some(Aside::Markdown { candidate_id: 1, source }) if source == "*fool*"
    ));
    assert!(contents.change_selection(MenuSelectionChange::Next, false));
    assert!(contents.render_aside(true, false).is_none());
}

#[test]
fn snippet_choices_are_all_shown() {
    let choices = vec!["a".to_string(), "b".to_string()];
    let contents = CompletionMenuContents::new_snippets(&choices, 3..5);
    assert_eq!(contents.entries.len(), 2);
    assert_eq!(contents.entries[1].string, "b");
    let completion = &contents.queried_completions.completions[1];
    assert_eq!(completion.new_text, "b");
    assert_eq!(completion.replace_range, 3..5);
    assert!(matches!(completion.source, CompletionSource::Custom));
    let mut menu = CompletionMenu::new(anchor(1));
    menu.contents = Some(contents);
    assert!(menu.visible());
    assert!(menu.change_selection(MenuSelectionChange::Prev, false));
    assert_eq!(menu.contents.as_ref().unwrap().selected_item, 1);
}

#[test]
fn words_are_looked_for_around_the_cursor() {
    assert_eq!(word_search_points(10, (20, 5)), ((0, 0), (20, 5)));
    assert_eq!(word_search_points(6000, (20000, 5)), ((1000, 0), (11000, 0)));
    assert!(skips_digits(&None));
    assert!(skips_digits(&Some("ab".to_string())));
    assert!(!skips_digits(&Some("a1".to_string())));
}
