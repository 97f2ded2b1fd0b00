use file_snapshots::rewind::{
    first_item, history_is_current, hydration_turn, is_first_prompt, last_turn_id,
    reads_as_command, resolve_start, rewind_gate, Gate, ItemRef, RewindRun, RewindStep, Turn,
};

fn turn(id: &str, items: &[&str]) -> Turn {
    Turn { id: id.to_string(), items: items.iter().map(|i| i.to_string()).collect() }
}

fn item(turn: &str, item: &str) -> Option<ItemRef> {
    Some(ItemRef { turn_id: turn.to_string(), item_id: item.to_string() })
}

fn gate(shown: Option<&str>, remote: bool, images: usize, text: &str, pending: bool, visible: bool) -> Gate {
    rewind_gate(shown, "t1", remote, images, text, pending, visible)
}

#[test]
fn a_rewind_is_gated() {
    assert_eq!(gate(None, true, 1, "/", true, false), Gate::OtherThread);
    assert_eq!(gate(Some("t2"), false, 0, "hi", false, true), Gate::OtherThread);
    assert_eq!(gate(Some("t1"), true, 1, "hi", true, false), Gate::UnsafeRemotePrompt);
    assert_eq!(gate(Some("t1"), true, 0, " \t/undo", false, true), Gate::UnsafeRemotePrompt);
    assert_eq!(gate(Some("t1"), true, 0, "hi", true, false), Gate::PermissionsPending);
    assert_eq!(gate(Some("t1"), false, 3, "!ls", true, true), Gate::PermissionsPending);
    assert_eq!(gate(Some("t1"), false, 0, "hi", false, false), Gate::PromptGone);
    assert_eq!(gate(Some("t1"), true, 0, "hi", false, true), Gate::Open);
    assert_eq!(gate(Some("t1"), false, 1, "/x", false, true), Gate::Open);
}

#[test]
fn a_refusal_says_why() {
    assert_eq!(Gate::Open.message(), None);
    assert_eq!(Gate::OtherThread.message(), None);
    assert!(Gate::UnsafeRemotePrompt.message().unwrap().contains("cannot be restored safely"));
    assert!(!Gate::UnsafeRemotePrompt.gives_prompt_back());
    assert_eq!(
        Gate::PermissionsPending.message(),
        Some("Wait for permissions to update before editing this prompt.")
    );
    assert!(Gate::PermissionsPending.gives_prompt_back());
    assert_eq!(Gate::PromptGone.message(), Some("the selected prompt is no longer visible"));
    assert!(Gate::PromptGone.gives_prompt_back());
}

#[test]
fn commands_start_with_their_first_visible_character() {
    assert!(reads_as_command("/rewind"));
    assert!(reads_as_command("!ls"));
    assert!(reads_as_command("\u{3000}\u{2003}\n\u{85}!ls"));
    assert!(!reads_as_command("a/b"));
    assert!(!reads_as_command("\u{200b}/x"), "a zero-width space is no white space");
    assert!(!reads_as_command("   "));
    assert!(!reads_as_command(""));
    for n in 0..=0x10ffffu32 {
        if let Some(c) = char::from_u32(n) {
            assert_eq!(reads_as_command(&format!("{c}/")), c.is_whitespace() || c == '/' || c == '!');
        }
    }
}

#[test]
fn the_transcript_starts_at_its_first_item() {
    let turns = vec![turn("a", &[]), turn("b", &["b1", "b2"]), turn("c", &["c1"])];
    assert_eq!(first_item(&turns), item("b", "b1"));
    assert_eq!(first_item(&vec![turn("a", &[])]), None);
    assert_eq!(last_turn_id(&turns), Some("c".to_string()));
    assert_eq!(last_turn_id(&vec![]), None);
}

#[test]
fn history_is_read_as_far_as_it_is_needed() {
    let tail = Some("z".to_string());
    assert_eq!(hydration_turn(&item("b", "b1"), &tail), Some("b".to_string()));
    assert_eq!(hydration_turn(&None, &tail), tail);
    assert_eq!(hydration_turn(&None, &None), None);
}

#[test]
fn a_history_that_moved_on_is_refused() {
    let turns = vec![turn("a", &[]), turn("b", &[])];
    assert!(history_is_current(&turns, &Some("b".to_string())));
    assert!(!history_is_current(&turns, &Some("a".to_string())));
    assert!(!history_is_current(&turns, &None));
    assert!(history_is_current(&vec![], &None));
    assert!(!history_is_current(&vec![], &Some("a".to_string())));
}

#[test]
fn with_nothing_visible_the_next_prompt_follows_the_tail() {
    let turns = vec![turn("a", &["a1"]), turn("b", &[]), turn("c", &["c1"])];
    let tail = |t: &str| Some(t.to_string());
    assert_eq!(resolve_start(item("x", "x1"), &tail("a"), &turns), item("x", "x1"));
    assert_eq!(resolve_start(None, &tail("a"), &turns), item("c", "c1"));
    assert_eq!(resolve_start(None, &tail("b"), &turns), item("c", "c1"));
    assert_eq!(resolve_start(None, &tail("c"), &turns), None);
    assert_eq!(resolve_start(None, &tail("gone"), &turns), None);
    assert_eq!(resolve_start(None, &None, &turns), None);
}

#[test]
fn the_first_prompt_has_nothing_before_it() {
    let turns = vec![turn("a", &[]), turn("b", &[])];
    assert!(is_first_prompt(&turns, "a", false));
    assert!(!is_first_prompt(&turns, "a", true));
    assert!(!is_first_prompt(&turns, "b", false));
    assert!(!is_first_prompt(&vec![], "a", false));
}

fn run(is_first: bool, restore_files: bool) -> RewindRun {
    RewindRun::new("t1".to_string(), "turn-2".to_string(), is_first, restore_files)
}

#[test]
fn a_rewind_branches() {
    let mut r = run(false, true);
    assert_eq!(
        r.step(),
        RewindStep::Fork { before_turn_id: "turn-2".to_string(), restore_files: true }
    );
    r.stepped(Ok(()));
    assert_eq!(r.step(), RewindStep::Attach);
    r.stepped(Ok(()));
    let done = RewindStep::Finished { retired: "t1".to_string(), tell_unrestorable: true };
    assert_eq!(r.step(), done);
    r.stepped(Err("late".to_string()));
    assert_eq!(r.step(), done);
}

#[test]
fn the_first_prompt_restores_files_and_starts_afresh() {
    let mut r = run(true, true);
    assert_eq!(r.step(), RewindStep::RestoreFiles { turn_id: "turn-2".to_string() });
    r.stepped(Ok(()));
    assert_eq!(r.step(), RewindStep::StartFresh);
    r.stepped(Ok(()));
    assert_eq!(r.step(), RewindStep::Attach);

    let mut r = run(true, false);
    assert_eq!(r.step(), RewindStep::StartFresh);
    r.stepped(Ok(()));
    r.stepped(Ok(()));
    assert_eq!(
        r.step(),
        RewindStep::Finished { retired: "t1".to_string(), tell_unrestorable: false }
    );
}

#[test]
fn a_failure_ends_the_rewind() {
    let mut r = run(true, true);
    r.stepped(Err("no such turn".to_string()));
    let failed = RewindStep::Failed { reason: "no such turn".to_string() };
    assert_eq!(r.step(), failed);
    r.stepped(Ok(()));
    assert_eq!(r.step(), failed, "nothing starts afresh without its files");

    let mut r = run(false, false);
    r.stepped(Ok(()));
    r.stepped(Err("gone".to_string()));
    assert_eq!(r.step(), RewindStep::Failed { reason: "gone".to_string() });
}
