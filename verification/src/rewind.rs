//! Rewinding a conversation: what is asked for, what stands in the way, and
//! the order in which things happen.
//!
//! A rewind branches. The conversation goes on from before the selected prompt
//! in a new thread, and the thread that it leaves is kept, so that the rewind
//! can be undone. The first prompt has nothing before it: there the files are
//! restored and the conversation starts afresh.

use vstd::prelude::*;

use crate::paths::text_if;
use crate::text::{chars_of, same};

verus! {

/// A turn of a conversation, with the ids of its items.
#[derive(Debug, Clone, PartialEq, Eq)]
pub struct Turn {
    pub id: String,
    pub items: Vec<String>,
}

/// An item, by its turn and its own id.
#[derive(Debug, Clone, PartialEq, Eq)]
pub struct ItemRef {
    pub turn_id: String,
    pub item_id: String,
}

/// What an `ItemRef` stands for.
pub struct ItemView {
    pub turn_id: Seq<char>,
    pub item_id: Seq<char>,
}

impl View for ItemRef {
    type V = ItemView;

    open spec fn view(&self) -> ItemView {
        ItemView { turn_id: self.turn_id@, item_id: self.item_id@ }
    }
}

/// What an item that may not be there stands for.
pub open spec fn item_if(item: Option<ItemRef>) -> Option<ItemView> {
    match item {
        Some(i) => Some(i@),
        None => None,
    }
}

/// White space, as Unicode has it.
pub open spec fn is_white_space(c: char) -> bool {
    ||| '\u{9}' <= c <= '\u{d}'
    ||| c == '\u{20}'
    ||| c == '\u{85}'
    ||| c == '\u{a0}'
    ||| c == '\u{1680}'
    ||| '\u{2000}' <= c <= '\u{200a}'
    ||| c == '\u{2028}'
    ||| c == '\u{2029}'
    ||| c == '\u{202f}'
    ||| c == '\u{205f}'
    ||| c == '\u{3000}'
}

/// The first character of a text that is not white space.
pub open spec fn first_visible(text: Seq<char>) -> Option<char>
    decreases text.len(),
{
    if text.len() == 0 {
        None
    } else if is_white_space(text[0]) {
        first_visible(text.drop_first())
    } else {
        Some(text[0])
    }
}

/// A prompt that reads as a command.
pub open spec fn is_command(text: Seq<char>) -> bool {
    first_visible(text) == Some('/') || first_visible(text) == Some('!')
}

/// Whether a prompt reads as a command: its first visible character is a slash
/// or an exclamation mark.
pub fn reads_as_command(text: &str) -> (r: bool)
    ensures
        r == is_command(text@),
{
    let chars = chars_of(text);
    let mut at: usize = 0;
    assert(text@.skip(0) =~= text@);
    while at < chars.len()
        invariant
            chars@ == text@,
            at <= chars@.len(),
            first_visible(text@.skip(at as int)) == first_visible(text@),
        decreases chars@.len() - at,
    {
        let c = chars[at];
        let space = ('\u{9}' <= c && c <= '\u{d}') || c == '\u{20}' || c == '\u{85}' || c
            == '\u{a0}' || c == '\u{1680}' || ('\u{2000}' <= c && c <= '\u{200a}') || c
            == '\u{2028}' || c == '\u{2029}' || c == '\u{202f}' || c == '\u{205f}' || c
            == '\u{3000}';
        assert(text@.skip(at as int)[0] == c);
        if !space {
            return c == '/' || c == '!';
        }
        assert(text@.skip(at as int).drop_first() =~= text@.skip(at + 1));
        at = at + 1;
    }
    false
}

/// Whether a rewind may go ahead.
#[derive(Debug, Clone, Copy, PartialEq, Eq, Structural)]
pub enum Gate {
    Open,
    /// It is about a thread that is no longer shown: nothing happens.
    OtherThread,
    /// The prompt cannot be sent again from a remote workspace.
    UnsafeRemotePrompt,
    /// The thread's permissions are being updated.
    PermissionsPending,
    /// The prompt is not in the transcript any more.
    PromptGone,
}

/// What stands in the way of a rewind, the first thing first.
pub open spec fn gate_of(
    shown: Option<Seq<char>>,
    thread: Seq<char>,
    remote: bool,
    local_images: nat,
    text: Seq<char>,
    pending: bool,
    visible: bool,
) -> Gate {
    if shown != Some(thread) {
        Gate::OtherThread
    } else if remote && (local_images > 0 || is_command(text)) {
        Gate::UnsafeRemotePrompt
    } else if pending {
        Gate::PermissionsPending
    } else if !visible {
        Gate::PromptGone
    } else {
        Gate::Open
    }
}

/// What stands in the way of a rewind: of a thread that is not the one shown;
/// of a prompt in a remote workspace that has local images or reads as a
/// command; while permissions are pending; of a prompt that is gone from the
/// transcript.
pub fn rewind_gate(
    shown: Option<&str>,
    thread_id: &str,
    remote: bool,
    local_images: usize,
    text: &str,
    pending: bool,
    visible: bool,
) -> (r: Gate)
    ensures
        r == gate_of(
            match shown {
                Some(t) => Some(t@),
                None => None,
            },
            thread_id@,
            remote,
            local_images as nat,
            text@,
            pending,
            visible,
        ),
{
    let here = match shown {
        Some(t) => same(t, thread_id),
        None => false,
    };
    if !here {
        Gate::OtherThread
    } else if remote && (local_images > 0 || reads_as_command(text)) {
        Gate::UnsafeRemotePrompt
    } else if pending {
        Gate::PermissionsPending
    } else if !visible {
        Gate::PromptGone
    } else {
        Gate::Open
    }
}

impl Gate {
    /// Whether the prompt goes back to the composer when the rewind is
    /// refused. A prompt that cannot be sent again does not.
    pub fn gives_prompt_back(self) -> (r: bool)
        ensures
            r == (self is PermissionsPending || self is PromptGone),
    {
        match self {
            Gate::PermissionsPending => true,
            Gate::PromptGone => true,
            _ => false,
        }
    }

    /// What the user is told when the rewind is refused.
    pub fn message(self) -> (r: Option<&'static str>)
        ensures
            match self {
                Gate::Open => r is None,
                Gate::OtherThread => r is None,
                Gate::UnsafeRemotePrompt => r matches Some(m) && m@
                    == "This remote prompt contains local image paths or command syntax that cannot be restored safely. Write a new message and reattach any images."@,
                Gate::PermissionsPending => r matches Some(m) && m@
                    == "Wait for permissions to update before editing this prompt."@,
                Gate::PromptGone => r matches Some(m) && m@
                    == "the selected prompt is no longer visible"@,
            },
    {
        match self {
            Gate::Open => None,
            Gate::OtherThread => None,
            Gate::UnsafeRemotePrompt => Some(
                "This remote prompt contains local image paths or command syntax that cannot be restored safely. Write a new message and reattach any images.",
            ),
            Gate::PermissionsPending => Some(
                "Wait for permissions to update before editing this prompt.",
            ),
            Gate::PromptGone => Some("the selected prompt is no longer visible"),
        }
    }
}

/// The first item of a run of turns.
pub open spec fn first_item_of(turns: Seq<Turn>) -> Option<ItemView>
    decreases turns.len(),
{
    if turns.len() == 0 {
        None
    } else if turns[0].items@.len() > 0 {
        Some(ItemView { turn_id: turns[0].id@, item_id: turns[0].items@[0]@ })
    } else {
        first_item_of(turns.drop_first())
    }
}

/// The first item of the turns from place `from` on.
fn first_item_from(turns: &Vec<Turn>, from: usize) -> (r: Option<ItemRef>)
    requires
        from <= turns@.len(),
    ensures
        item_if(r) == first_item_of(turns@.skip(from as int)),
{
    let mut at = from;
    while at < turns.len()
        invariant
            from <= at <= turns@.len(),
            first_item_of(turns@.skip(at as int)) == first_item_of(turns@.skip(from as int)),
        decreases turns@.len() - at,
    {
        assert(turns@.skip(at as int)[0] == turns@[at as int]);
        if turns[at].items.len() > 0 {
            return Some(
                ItemRef { turn_id: turns[at].id.clone(), item_id: turns[at].items[0].clone() },
            );
        }
        assert(turns@.skip(at as int).drop_first() =~= turns@.skip(at + 1));
        at = at + 1;
    }
    None
}

/// The first item of the turns that are loaded: where the visible transcript
/// starts.
pub fn first_item(turns: &Vec<Turn>) -> (r: Option<ItemRef>)
    ensures
        item_if(r) == first_item_of(turns@),
{
    assert(turns@.skip(0) =~= turns@);
    first_item_from(turns, 0)
}

/// The id of the last of a run of turns.
pub open spec fn last_id(turns: Seq<Turn>) -> Option<Seq<char>> {
    if turns.len() == 0 {
        None
    } else {
        Some(turns.last().id@)
    }
}

/// The id of the last of a run of turns.
pub fn last_turn_id(turns: &Vec<Turn>) -> (r: Option<String>)
    ensures
        text_if(r) == last_id(turns@),
{
    let n = turns.len();
    if n == 0 {
        None
    } else {
        Some(turns[n - 1].id.clone())
    }
}

/// How far back the history of a thread has to be read.
pub open spec fn history_from(
    start: Option<ItemView>,
    tail: Option<Seq<char>>,
) -> Option<Seq<char>> {
    match start {
        Some(item) => Some(item.turn_id),
        None => tail,
    }
}

/// The turn through which the history of a thread has to be read: the one
/// where the visible transcript starts, else the last one that is loaded. With
/// neither, all of it has to be.
pub fn hydration_turn(start: &Option<ItemRef>, loaded_tail: &Option<String>) -> (r: Option<String>)
    ensures
        text_if(r) == history_from(item_if(*start), text_if(*loaded_tail)),
{
    match start {
        Some(item) => Some(item.turn_id.clone()),
        None => match loaded_tail {
            Some(turn) => Some(turn.clone()),
            None => None,
        },
    }
}

/// Whether the history that was read ends where the thread was last seen to
/// end. If it does not, the selection cannot be trusted.
pub fn history_is_current(turns: &Vec<Turn>, latest: &Option<String>) -> (r: bool)
    ensures
        r == (last_id(turns@) == text_if(*latest)),
{
    let last = last_turn_id(turns);
    match (&last, latest) {
        (Some(a), Some(b)) => same(a.as_str(), b.as_str()),
        (None, None) => true,
        _ => false,
    }
}

/// The first place of a turn in a history; the length where it is not there.
pub open spec fn place_of_turn(turns: Seq<Turn>, id: Seq<char>) -> int
    decreases turns.len(),
{
    if turns.len() == 0 || turns[0].id@ == id {
        0
    } else {
        1 + place_of_turn(turns.drop_first(), id)
    }
}

/// The first item after a turn of a history.
pub open spec fn item_after(turns: Seq<Turn>, id: Seq<char>) -> Option<ItemView> {
    if place_of_turn(turns, id) < turns.len() {
        first_item_of(turns.skip(place_of_turn(turns, id) + 1))
    } else {
        None
    }
}

/// Where the visible transcript starts, in a history that has been read.
pub open spec fn start_of(
    start: Option<ItemView>,
    tail: Option<Seq<char>>,
    turns: Seq<Turn>,
) -> Option<ItemView> {
    if start is Some {
        start
    } else if tail is Some {
        item_after(turns, tail->0)
    } else {
        None
    }
}

/// Where the visible transcript starts. With no visible item loaded, the next
/// prompt follows the last turn that is.
pub fn resolve_start(
    start: Option<ItemRef>,
    loaded_tail: &Option<String>,
    turns: &Vec<Turn>,
) -> (r: Option<ItemRef>)
    ensures
        item_if(r) == start_of(item_if(start), text_if(*loaded_tail), turns@),
{
    if start.is_some() {
        return start;
    }
    match loaded_tail {
        None => None,
        Some(tail) => {
            let mut at: usize = 0;
            assert(turns@.skip(0) =~= turns@);
            while at < turns.len() && !same(turns[at].id.as_str(), tail.as_str())
                invariant
                    at <= turns@.len(),
                    place_of_turn(turns@, tail@) == at + place_of_turn(
                        turns@.skip(at as int),
                        tail@,
                    ),
                decreases turns@.len() - at,
            {
                assert(turns@.skip(at as int)[0] == turns@[at as int]);
                assert(turns@.skip(at as int).drop_first() =~= turns@.skip(at + 1));
                at = at + 1;
            }
            proof {
                let rest = turns@.skip(at as int);
                if at < turns@.len() {
                    assert(rest[0] == turns@[at as int]);
                }
                assert(place_of_turn(rest, tail@) == 0);
            }
            if at < turns.len() {
                first_item_from(turns, at + 1)
            } else {
                None
            }
        },
    }
}

/// The selected prompt opened the conversation.
pub open spec fn opens_conversation(
    turns: Seq<Turn>,
    before: Seq<char>,
    has_older_history: bool,
) -> bool {
    turns.len() > 0 && turns[0].id@ == before && !has_older_history
}

/// Whether the selected prompt opened the conversation, so that there is
/// nothing before it to branch from.
pub fn is_first_prompt(turns: &Vec<Turn>, before_turn_id: &str, has_older_history: bool) -> (r: bool)
    ensures
        r == opens_conversation(turns@, before_turn_id@, has_older_history),
{
    turns.len() > 0 && same(turns[0].id.as_str(), before_turn_id) && !has_older_history
}

/// How far a rewind is.
#[derive(Debug, Clone, Copy, PartialEq, Eq, Structural)]
pub enum RewindStage {
    RestoreFiles,
    StartFresh,
    Fork,
    Attach,
    Finished,
    Failed,
}

/// The next thing a rewind does.
#[derive(Debug, Clone, PartialEq, Eq)]
pub enum RewindStep {
    /// Restore the files of the thread to the turn.
    RestoreFiles { turn_id: String },
    /// Start a thread with nothing in it.
    StartFresh,
    /// Branch the thread before the turn, and restore its files on the way if
    /// that is asked for.
    Fork { before_turn_id: String, restore_files: bool },
    /// Leave the thread that is shown, and show the new one.
    Attach,
    /// Give the prompt back, retire the thread that was left and, where files
    /// were to be restored, say what could not be.
    Finished { retired: String, tell_unrestorable: bool },
    /// Give the prompt back with the reason.
    Failed { reason: String },
}

/// A rewind on its way.
pub struct RewindRun {
    thread_id: String,
    before_turn_id: String,
    restore_files: bool,
    stage: RewindStage,
    reason: String,
}

/// What a `RewindRun` stands for.
#[verifier::ext_equal]
pub struct RewindView {
    pub thread: Seq<char>,
    pub before: Seq<char>,
    pub restore_files: bool,
    pub stage: RewindStage,
    pub reason: Seq<char>,
}

impl View for RewindRun {
    type V = RewindView;

    closed spec fn view(&self) -> RewindView {
        RewindView {
            thread: self.thread_id@,
            before: self.before_turn_id@,
            restore_files: self.restore_files,
            stage: self.stage,
            reason: self.reason@,
        }
    }
}

/// Where a rewind begins: from the first prompt, with the files and then a
/// fresh conversation; from any other, with a branch.
pub open spec fn first_rewind_stage(is_first: bool, restore_files: bool) -> RewindStage {
    if !is_first {
        RewindStage::Fork
    } else if restore_files {
        RewindStage::RestoreFiles
    } else {
        RewindStage::StartFresh
    }
}

/// A rewind of a thread to before a turn, at its beginning.
pub open spec fn begun(
    thread: Seq<char>,
    before: Seq<char>,
    is_first: bool,
    restore_files: bool,
) -> RewindView {
    RewindView {
        thread,
        before,
        restore_files,
        stage: first_rewind_stage(is_first, restore_files),
        reason: Seq::empty(),
    }
}

/// What follows a stage that went well.
pub open spec fn next_stage(stage: RewindStage) -> RewindStage {
    match stage {
        RewindStage::RestoreFiles => RewindStage::StartFresh,
        RewindStage::StartFresh => RewindStage::Attach,
        RewindStage::Fork => RewindStage::Attach,
        RewindStage::Attach => RewindStage::Finished,
        RewindStage::Finished => RewindStage::Finished,
        RewindStage::Failed => RewindStage::Failed,
    }
}

/// A rewind that waits for nothing more.
pub open spec fn is_over(stage: RewindStage) -> bool {
    stage is Finished || stage is Failed
}

/// The rewind after an attempt at its current stage. Whatever fails ends it:
/// nothing further is done to the conversation.
pub open spec fn attempted(run: RewindView, outcome: Result<(), Seq<char>>) -> RewindView {
    if is_over(run.stage) {
        run
    } else {
        match outcome {
            Ok(_) => RewindView { stage: next_stage(run.stage), ..run },
            Err(reason) => RewindView { stage: RewindStage::Failed, reason, ..run },
        }
    }
}

/// What a step says, stage by stage.
pub open spec fn is_step_of(run: RewindView, step: RewindStep) -> bool {
    match run.stage {
        RewindStage::RestoreFiles => step matches RewindStep::RestoreFiles { turn_id } && turn_id@
            == run.before,
        RewindStage::StartFresh => step is StartFresh,
        RewindStage::Fork => step matches RewindStep::Fork { before_turn_id, restore_files }
            && before_turn_id@ == run.before && restore_files == run.restore_files,
        RewindStage::Attach => step is Attach,
        RewindStage::Finished => step matches RewindStep::Finished { retired, tell_unrestorable }
            && retired@ == run.thread && tell_unrestorable == run.restore_files,
        RewindStage::Failed => step matches RewindStep::Failed { reason } && reason@ == run.reason,
    }
}

impl RewindRun {
    /// A rewind of `thread_id` to before a turn.
    pub fn new(
        thread_id: String,
        before_turn_id: String,
        is_first: bool,
        restore_files: bool,
    ) -> (r: Self)
        ensures
            r@.thread == thread_id@,
            r@.before == before_turn_id@,
            r@.restore_files == restore_files,
            r@.stage == first_rewind_stage(is_first, restore_files),
            r@.reason == Seq::<char>::empty(),
            r@ == begun(thread_id@, before_turn_id@, is_first, restore_files),
    {
        let stage = if !is_first {
            RewindStage::Fork
        } else if restore_files {
            RewindStage::RestoreFiles
        } else {
            RewindStage::StartFresh
        };
        let r = RewindRun {
            thread_id,
            before_turn_id,
            restore_files,
            stage,
            reason: String::new(),
        };
        assert(r@.reason =~= Seq::<char>::empty());
        r
    }

    /// The next thing to do.
    pub fn step(&self) -> (r: RewindStep)
        ensures
            is_step_of(self@, r),
    {
        match self.stage {
            RewindStage::RestoreFiles => RewindStep::RestoreFiles {
                turn_id: self.before_turn_id.clone(),
            },
            RewindStage::StartFresh => RewindStep::StartFresh,
            RewindStage::Fork => RewindStep::Fork {
                before_turn_id: self.before_turn_id.clone(),
                restore_files: self.restore_files,
            },
            RewindStage::Attach => RewindStep::Attach,
            RewindStage::Finished => RewindStep::Finished {
                retired: self.thread_id.clone(),
                tell_unrestorable: self.restore_files,
            },
            RewindStage::Failed => RewindStep::Failed { reason: self.reason.clone() },
        }
    }

    /// Takes in how the step went.
    pub fn stepped(&mut self, outcome: Result<(), String>)
        ensures
            final(self)@ == attempted(
                old(self)@,
                match outcome {
                    Ok(_) => Ok(()),
                    Err(reason) => Err(reason@),
                },
            ),
    {
        match self.stage {
            RewindStage::Finished => return ,
            RewindStage::Failed => return ,
            _ => (),
        }
        match outcome {
            Err(reason) => {
                self.stage = RewindStage::Failed;
                self.reason = reason;
            },
            Ok(_) => {
                self.stage = match self.stage {
                    RewindStage::RestoreFiles => RewindStage::StartFresh,
                    RewindStage::StartFresh => RewindStage::Attach,
                    RewindStage::Fork => RewindStage::Attach,
                    RewindStage::Attach => RewindStage::Finished,
                    other => other,
                };
            },
        }
    }
}

/// The rewind after a run of attempts.
pub open spec fn carried_through(
    run: RewindView,
    outcomes: Seq<Result<(), Seq<char>>>,
) -> RewindView
    decreases outcomes.len(),
{
    if outcomes.len() == 0 {
        run
    } else {
        attempted(carried_through(run, outcomes.drop_last()), outcomes.last())
    }
}

/// A rewind ends after three attempts at most, however they go.
pub proof fn a_rewind_ends(
    run: RewindView,
    is_first: bool,
    outcomes: Seq<Result<(), Seq<char>>>,
)
    requires
        run.stage == first_rewind_stage(is_first, run.restore_files),
        outcomes.len() >= 3,
    ensures
        is_over(carried_through(run, outcomes).stage),
    decreases outcomes.len(),
{
    if outcomes.len() > 3 {
        a_rewind_ends(run, is_first, outcomes.drop_last());
    } else {
        reveal_with_fuel(carried_through, 4);
    }
}

/// A rewind that failed keeps the reason of the first attempt that failed, and
/// one that is still on its way has had none.
pub proof fn a_rewind_fails_with_its_first_failure(
    run: RewindView,
    outcomes: Seq<Result<(), Seq<char>>>,
)
    requires
        !is_over(run.stage),
    ensures
        carried_through(run, outcomes).thread == run.thread,
        carried_through(run, outcomes).stage is Failed ==> exists|i: int|
            0 <= i < outcomes.len() && (#[trigger] outcomes[i]) is Err && outcomes[i]->Err_0
                == carried_through(run, outcomes).reason && forall|j: int|
                0 <= j < i ==> (#[trigger] outcomes[j]) is Ok,
        !is_over(carried_through(run, outcomes).stage) ==> forall|j: int|
            0 <= j < outcomes.len() ==> (#[trigger] outcomes[j]) is Ok,
    decreases outcomes.len(),
{
    if outcomes.len() > 0 {
        let front = outcomes.drop_last();
        a_rewind_fails_with_its_first_failure(run, front);
        let mid = carried_through(run, front);
        let last = outcomes.len() - 1;
        if mid.stage is Failed {
            let i = choose|i: int|
                0 <= i < front.len() && (#[trigger] front[i]) is Err && front[i]->Err_0
                    == mid.reason && forall|j: int| 0 <= j < i ==> (#[trigger] front[j]) is Ok;
            assert(outcomes[i] == front[i]);
            assert forall|j: int| 0 <= j < i implies (#[trigger] outcomes[j]) is Ok by {
                assert(front[j] == outcomes[j]);
            }
        } else if !(mid.stage is Finished) {
            assert forall|j: int| 0 <= j < last implies (#[trigger] outcomes[j]) is Ok by {
                assert(front[j] == outcomes[j]);
            }
            assert(outcomes[last] == outcomes.last());
        }
    }
}

/// The thread is retired only where everything before went well: in a rewind
/// that has finished no attempt failed while it was on its way.
pub proof fn a_finished_rewind_had_no_failure(
    run: RewindView,
    outcomes: Seq<Result<(), Seq<char>>>,
    i: int,
)
    requires
        carried_through(run, outcomes).stage is Finished,
        0 <= i < outcomes.len(),
        !is_over(carried_through(run, outcomes.take(i)).stage),
    ensures
        outcomes[i] is Ok,
{
    let next = outcomes.take(i + 1);
    assert(next.drop_last() =~= outcomes.take(i));
    assert(next.last() == outcomes[i]);
    if outcomes[i] is Err {
        failed_stays_failed(run, outcomes, i + 1);
    }
}

proof fn failed_stays_failed(run: RewindView, outcomes: Seq<Result<(), Seq<char>>>, n: int)
    requires
        0 <= n <= outcomes.len(),
        carried_through(run, outcomes.take(n)).stage is Failed,
    ensures
        carried_through(run, outcomes).stage is Failed,
    decreases outcomes.len(),
{
    if n == outcomes.len() {
        assert(outcomes.take(n) =~= outcomes);
    } else {
        assert(outcomes.drop_last().take(n) =~= outcomes.take(n));
        failed_stays_failed(run, outcomes.drop_last(), n);
    }
}

/// From the first prompt the conversation never starts afresh before the files
/// are back, where they are to be.
pub proof fn files_come_before_a_fresh_start(
    run: RewindView,
    outcomes: Seq<Result<(), Seq<char>>>,
)
    requires
        run.stage == first_rewind_stage(true, true),
        outcomes.len() > 0,
        carried_through(run, outcomes).stage is StartFresh,
    ensures
        outcomes.len() == 1,
        outcomes[0] is Ok,
    decreases outcomes.len(),
{
    reveal_with_fuel(carried_through, 2);
    if outcomes.len() > 1 {
        let front = outcomes.drop_last();
        let mid = carried_through(run, front);
        past_the_files(run, front);
    }
}

/// After the first attempt a rewind is past restoring the files.
proof fn past_the_files(run: RewindView, outcomes: Seq<Result<(), Seq<char>>>)
    requires
        run.stage is RestoreFiles,
        outcomes.len() > 0,
    ensures
        !(carried_through(run, outcomes).stage is RestoreFiles),
    decreases outcomes.len(),
{
    if outcomes.len() > 1 {
        past_the_files(run, outcomes.drop_last());
    } else {
        reveal_with_fuel(carried_through, 2);
    }
}

/// What was asked for at the beginning stays, however the attempts go.
proof fn what_was_asked_for_stays(run: RewindView, outcomes: Seq<Result<(), Seq<char>>>)
    ensures
        carried_through(run, outcomes).thread == run.thread,
        carried_through(run, outcomes).before == run.before,
        carried_through(run, outcomes).restore_files == run.restore_files,
    decreases outcomes.len(),
{
    if outcomes.len() > 0 {
        what_was_asked_for_stays(run, outcomes.drop_last());
    }
}

/// From where a rewind begins without files to restore, it never comes to
/// restoring them.
proof fn no_files_on_the_way(run: RewindView, outcomes: Seq<Result<(), Seq<char>>>)
    requires
        !(run.stage is RestoreFiles),
    ensures
        !(carried_through(run, outcomes).stage is RestoreFiles),
    decreases outcomes.len(),
{
    if outcomes.len() > 0 {
        no_files_on_the_way(run, outcomes.drop_last());
    }
}

/// Files are restored only where that was asked for. A rewind that began
/// without it never restores them, at any step, however the attempts before
/// went: neither before a fresh start nor on the way of a branch. Nor does it
/// speak of files that could not be restored.
pub proof fn files_are_left_alone_unless_asked_for(
    thread: Seq<char>,
    before: Seq<char>,
    is_first: bool,
    outcomes: Seq<Result<(), Seq<char>>>,
    step: RewindStep,
)
    requires
        is_step_of(carried_through(begun(thread, before, is_first, false), outcomes), step),
    ensures
        !(step is RestoreFiles),
        step is Fork ==> !step->restore_files,
        step is Finished ==> !step->tell_unrestorable,
{
    let run = begun(thread, before, is_first, false);
    what_was_asked_for_stays(run, outcomes);
    no_files_on_the_way(run, outcomes);
}

/// A rewind does what was asked of it and of nothing else: a branch is cut
/// before the turn that was given, the files go back to that turn, a branch
/// restores files exactly where that was asked for, and the thread that is
/// retired is the one that was given.
pub proof fn every_step_is_about_what_was_asked_for(
    thread: Seq<char>,
    before: Seq<char>,
    is_first: bool,
    restore_files: bool,
    outcomes: Seq<Result<(), Seq<char>>>,
    step: RewindStep,
)
    requires
        is_step_of(carried_through(begun(thread, before, is_first, restore_files), outcomes), step),
    ensures
        step is RestoreFiles ==> is_first && restore_files && step->RestoreFiles_turn_id@ == before,
        step is StartFresh ==> is_first,
        step is Fork ==> !is_first && step->before_turn_id@ == before && step->restore_files
            == restore_files,
        step is Finished ==> step->retired@ == thread && step->tell_unrestorable == restore_files,
{
    let run = begun(thread, before, is_first, restore_files);
    what_was_asked_for_stays(run, outcomes);
    one_way_or_the_other(run, is_first, outcomes);
    if !(is_first && restore_files) {
        no_files_on_the_way(run, outcomes);
    }
}

/// A rewind from the first prompt never branches, and any other never starts
/// afresh.
proof fn one_way_or_the_other(
    run: RewindView,
    is_first: bool,
    outcomes: Seq<Result<(), Seq<char>>>,
)
    requires
        run.stage == first_rewind_stage(is_first, run.restore_files),
    ensures
        is_first ==> !(carried_through(run, outcomes).stage is Fork),
        !is_first ==> !(carried_through(run, outcomes).stage is StartFresh) && !(carried_through(
            run,
            outcomes,
        ).stage is RestoreFiles),
    decreases outcomes.len(),
{
    if outcomes.len() > 0 {
        one_way_or_the_other(run, is_first, outcomes.drop_last());
    }
}

/// How many attempts a rewind makes if all go well: three where files come
/// before a fresh start, else two.
pub open spec fn attempts(is_first: bool, restore_files: bool) -> int {
    if is_first && restore_files {
        3
    } else {
        2
    }
}

/// A rewind that goes well goes step by step. From the first prompt: the files,
/// where they are to be restored, then a fresh thread. From any other: a branch
/// before the turn. Then the new thread is shown, and at last the old one is
/// retired.
pub proof fn a_rewind_goes_step_by_step(
    thread: Seq<char>,
    before: Seq<char>,
    is_first: bool,
    restore_files: bool,
    outcomes: Seq<Result<(), Seq<char>>>,
    step: RewindStep,
)
    requires
        is_step_of(carried_through(begun(thread, before, is_first, restore_files), outcomes), step),
        forall|j: int| 0 <= j < outcomes.len() ==> (#[trigger] outcomes[j]) is Ok,
    ensures
        ({
            let n = outcomes.len();
            let last = attempts(is_first, restore_files);
            &&& n == 0 && !is_first ==> step is Fork
            &&& n == 0 && is_first && restore_files ==> step is RestoreFiles
            &&& n == last - 2 && is_first ==> step is StartFresh
            &&& n == last - 1 ==> step is Attach
            &&& n >= last ==> step is Finished
        }),
{
    goes_well(begun(thread, before, is_first, restore_files), is_first, outcomes);
}

proof fn goes_well(run: RewindView, is_first: bool, outcomes: Seq<Result<(), Seq<char>>>)
    requires
        run.stage == first_rewind_stage(is_first, run.restore_files),
        forall|j: int| 0 <= j < outcomes.len() ==> (#[trigger] outcomes[j]) is Ok,
    ensures
        ({
            let n = outcomes.len();
            let last = attempts(is_first, run.restore_files);
            let stage = carried_through(run, outcomes).stage;
            &&& n == 0 && !is_first ==> stage is Fork
            &&& n == 0 && is_first && run.restore_files ==> stage is RestoreFiles
            &&& n == last - 2 && is_first ==> stage is StartFresh
            &&& n == last - 1 ==> stage is Attach
            &&& n >= last ==> stage is Finished
            &&& n < last ==> !is_over(stage)
        }),
    decreases outcomes.len(),
{
    if outcomes.len() > 0 {
        let front = outcomes.drop_last();
        assert forall|j: int| 0 <= j < front.len() implies (#[trigger] front[j]) is Ok by {
            assert(front[j] == outcomes[j]);
        }
        goes_well(run, is_first, front);
        assert(outcomes[outcomes.len() - 1] is Ok);
    }
}

/// The first failure ends a rewind: from there on it says the reason of that
/// failure and does nothing more, whatever comes after. What is reported once
/// the rewind is over changes nothing.
pub proof fn the_first_failure_ends_a_rewind(
    thread: Seq<char>,
    before: Seq<char>,
    is_first: bool,
    restore_files: bool,
    outcomes: Seq<Result<(), Seq<char>>>,
    i: int,
    step: RewindStep,
)
    requires
        is_step_of(carried_through(begun(thread, before, is_first, restore_files), outcomes), step),
        0 <= i < outcomes.len(),
        outcomes[i] is Err,
        forall|j: int| 0 <= j < i ==> (#[trigger] outcomes[j]) is Ok,
    ensures
        i < attempts(is_first, restore_files) ==> step is Failed && step->reason@
            == outcomes[i]->Err_0,
        i >= attempts(is_first, restore_files) ==> step is Finished,
{
    fails_or_is_over(begun(thread, before, is_first, restore_files), is_first, outcomes, i);
}

proof fn fails_or_is_over(
    run: RewindView,
    is_first: bool,
    outcomes: Seq<Result<(), Seq<char>>>,
    i: int,
)
    requires
        run.stage == first_rewind_stage(is_first, run.restore_files),
        0 <= i < outcomes.len(),
        outcomes[i] is Err,
        forall|j: int| 0 <= j < i ==> (#[trigger] outcomes[j]) is Ok,
    ensures
        i < attempts(is_first, run.restore_files) ==> carried_through(run, outcomes).stage is Failed
            && carried_through(run, outcomes).reason == outcomes[i]->Err_0,
        i >= attempts(is_first, run.restore_files) ==> carried_through(
            run,
            outcomes,
        ).stage is Finished,
    decreases outcomes.len(),
{
    let front = outcomes.drop_last();
    assert forall|j: int| 0 <= j < i implies (#[trigger] front[j]) is Ok by {
        assert(front[j] == outcomes[j]);
    }
    if i < front.len() {
        assert(front[i] == outcomes[i]);
        fails_or_is_over(run, is_first, front, i);
    } else {
        goes_well(run, is_first, front);
    }
}

/// A rewind may go ahead exactly where it is about the thread that is shown,
/// its prompt can be sent again, no permissions are pending and the prompt is
/// still to be seen. A rewind of another thread is passed over before anything
/// else; an unsafe prompt comes before pending permissions, and those before a
/// prompt that is gone.
pub proof fn a_rewind_goes_ahead_where_nothing_stands_in_the_way(
    shown: Option<Seq<char>>,
    thread: Seq<char>,
    remote: bool,
    local_images: nat,
    text: Seq<char>,
    pending: bool,
    visible: bool,
)
    ensures
        ({
            let gate = gate_of(shown, thread, remote, local_images, text, pending, visible);
            let unsafe_prompt = remote && (local_images >= 1 || is_command(text));
            let here = shown is Some && shown->0 == thread;
            &&& gate is Open <==> here && !unsafe_prompt && !pending && visible
            &&& gate is OtherThread <==> !here
            &&& gate is UnsafeRemotePrompt <==> here && unsafe_prompt
            &&& gate is PermissionsPending <==> here && !unsafe_prompt && pending
            &&& gate is PromptGone <==> here && !unsafe_prompt && !pending && !visible
        }),
{
}

/// A prompt reads as a command exactly where, after any white space, it starts
/// with a slash or an exclamation mark. White space alone is no command.
pub proof fn a_command_starts_with_its_mark(white: Seq<char>, c: char, rest: Seq<char>)
    requires
        forall|i: int| 0 <= i < white.len() ==> is_white_space(#[trigger] white[i]),
        !is_white_space(c),
    ensures
        !is_command(white),
        is_command(white + seq![c] + rest) <==> c == '/' || c == '!',
    decreases white.len(),
{
    let text = white + seq![c] + rest;
    assert(text.len() > 0);
    if white.len() == 0 {
        assert(text[0] == c);
    } else {
        let less = white.drop_first();
        assert forall|i: int| 0 <= i < less.len() implies is_white_space(#[trigger] less[i]) by {
            assert(less[i] == white[i + 1]);
        }
        a_command_starts_with_its_mark(less, c, rest);
        assert(text[0] == white[0]);
        assert(text.drop_first() =~= less + seq![c] + rest);
    }
}

/// White space is the twenty-five characters that Unicode counts as such.
pub proof fn white_space_is_what_unicode_counts_as_such(c: char)
    ensures
        is_white_space(c) <==> seq![
            '\u{9}',
            '\u{a}',
            '\u{b}',
            '\u{c}',
            '\u{d}',
            '\u{20}',
            '\u{85}',
            '\u{a0}',
            '\u{1680}',
            '\u{2000}',
            '\u{2001}',
            '\u{2002}',
            '\u{2003}',
            '\u{2004}',
            '\u{2005}',
            '\u{2006}',
            '\u{2007}',
            '\u{2008}',
            '\u{2009}',
            '\u{200a}',
            '\u{2028}',
            '\u{2029}',
            '\u{202f}',
            '\u{205f}',
            '\u{3000}',
        ].contains(c),
{
    let all = seq![
        '\u{9}',
        '\u{a}',
        '\u{b}',
        '\u{c}',
        '\u{d}',
        '\u{20}',
        '\u{85}',
        '\u{a0}',
        '\u{1680}',
        '\u{2000}',
        '\u{2001}',
        '\u{2002}',
        '\u{2003}',
        '\u{2004}',
        '\u{2005}',
        '\u{2006}',
        '\u{2007}',
        '\u{2008}',
        '\u{2009}',
        '\u{200a}',
        '\u{2028}',
        '\u{2029}',
        '\u{202f}',
        '\u{205f}',
        '\u{3000}',
    ];
    if is_white_space(c) {
        let i: int = if c <= '\u{d}' {
            c as int - 9
        } else if c == '\u{20}' {
            5
        } else if c == '\u{85}' {
            6
        } else if c == '\u{a0}' {
            7
        } else if c == '\u{1680}' {
            8
        } else if c <= '\u{200a}' {
            c as int - 0x2000 + 9
        } else if c == '\u{2028}' {
            20
        } else if c == '\u{2029}' {
            21
        } else if c == '\u{202f}' {
            22
        } else if c == '\u{205f}' {
            23
        } else {
            24
        };
        assert(all[i] == c);
    }
}

/// The first item of a run of turns is that of the first turn that has one.
pub proof fn the_first_item_is_that_of_the_first_turn_with_one(turns: Seq<Turn>, i: int)
    requires
        0 <= i <= turns.len(),
        forall|j: int| 0 <= j < i ==> (#[trigger] turns[j]).items@.len() == 0,
        i < turns.len() ==> turns[i].items@.len() > 0,
    ensures
        i < turns.len() ==> first_item_of(turns) == Some(
            ItemView { turn_id: turns[i].id@, item_id: turns[i].items@[0]@ },
        ),
        i == turns.len() ==> first_item_of(turns) is None,
    decreases i,
{
    if i > 0 {
        assert(turns[0].items@.len() == 0);
        let rest = turns.drop_first();
        assert forall|j: int| 0 <= j < i - 1 implies (#[trigger] rest[j]).items@.len() == 0 by {
            assert(rest[j] == turns[j + 1]);
        }
        if i < turns.len() {
            assert(rest[i - 1] == turns[i]);
        }
        the_first_item_is_that_of_the_first_turn_with_one(rest, i - 1);
    }
}

/// Where nothing of the transcript is loaded, it starts with the first item
/// after the last turn that is, if the history has that turn and such an item;
/// where something is, it starts there; with neither, nowhere. The history has
/// to be read through the turn of that start, else through the last loaded one.
pub proof fn the_transcript_starts_after_what_is_loaded(
    start: ItemView,
    tail: Seq<char>,
    loaded: Option<Seq<char>>,
    turns: Seq<Turn>,
    i: int,
    k: int,
)
    requires
        0 <= i < k <= turns.len(),
        turns[i].id@ == tail,
        forall|j: int| 0 <= j < i ==> (#[trigger] turns[j]).id@ != tail,
        forall|j: int| i < j < k ==> (#[trigger] turns[j]).items@.len() == 0,
        k < turns.len() ==> turns[k].items@.len() > 0,
    ensures
        k < turns.len() ==> start_of(None, Some(tail), turns) == Some(
            ItemView { turn_id: turns[k].id@, item_id: turns[k].items@[0]@ },
        ),
        k == turns.len() ==> start_of(None, Some(tail), turns) is None,
        start_of(Some(start), loaded, turns) == Some(start),
        start_of(None, None, turns) is None,
        history_from(Some(start), loaded) == Some(start.turn_id),
        history_from(None, loaded) == loaded,
{
    a_turn_is_at_its_first_place(turns, tail, i);
    let rest = turns.skip(i + 1);
    assert forall|j: int| 0 <= j < k - i - 1 implies (#[trigger] rest[j]).items@.len() == 0 by {
        assert(rest[j] == turns[j + i + 1]);
    }
    if k < turns.len() {
        assert(rest[k - i - 1] == turns[k]);
    }
    the_first_item_is_that_of_the_first_turn_with_one(rest, k - i - 1);
}

/// Where the history does not have the last loaded turn, it has no start.
pub proof fn a_history_without_the_loaded_turn_has_no_start(turns: Seq<Turn>, tail: Seq<char>)
    requires
        forall|j: int| 0 <= j < turns.len() ==> (#[trigger] turns[j]).id@ != tail,
    ensures
        start_of(None, Some(tail), turns) is None,
{
    a_turn_is_at_its_first_place(turns, tail, turns.len() as int);
}

proof fn a_turn_is_at_its_first_place(turns: Seq<Turn>, id: Seq<char>, i: int)
    requires
        0 <= i <= turns.len(),
        forall|j: int| 0 <= j < i ==> (#[trigger] turns[j]).id@ != id,
        i < turns.len() ==> turns[i].id@ == id,
    ensures
        place_of_turn(turns, id) == i,
    decreases i,
{
    if i > 0 {
        assert(turns[0].id@ != id);
        let rest = turns.drop_first();
        assert forall|j: int| 0 <= j < i - 1 implies (#[trigger] rest[j]).id@ != id by {
            assert(rest[j] == turns[j + 1]);
        }
        if i < turns.len() {
            assert(rest[i - 1] == turns[i]);
        }
        a_turn_is_at_its_first_place(rest, id, i - 1);
    }
}

/// A prompt opened the conversation exactly where its turn is the first of the
/// history and no older history is left to be read; and a history ends with
/// its last turn.
pub proof fn a_conversation_opens_with_its_first_turn(
    turn: Turn,
    rest: Seq<Turn>,
    before: Seq<char>,
    older: bool,
)
    ensures
        opens_conversation(seq![turn] + rest, before, older) <==> turn.id@ == before && !older,
        !opens_conversation(Seq::empty(), before, older),
        last_id(rest.push(turn)) == Some(turn.id@),
        last_id(Seq::empty()) is None,
{
    assert((seq![turn] + rest)[0] == turn);
}

} // verus!
