//! Applying a restore plan, one file-system operation at a time.
//!
//! Nothing abandons a run. A restore that stops half way is the one outcome
//! worse than a restore that fails, so whatever could not be applied is
//! collected and reported, and the run goes on with the next item.
//!
//! A file is written to a temporary file beside it, which is then renamed over
//! it. The temporary file is created exclusively: what is already there is
//! refused, never followed and never removed.

use vstd::prelude::*;

use crate::blob::RemoveOutcome;
use crate::paths::{
    a_joined_name_comes_last, a_joined_name_is_one_more_component, a_parent_has_all_but_the_last,
    components, components_are_names, file_name, file_name_text, is_name,
    join, join_text, parent, parent_text,
};
use crate::restore::{PlanView, RestorePlan};
use crate::text::{decimal, decimal_is_digits, decimal_of, dotted_numbers_are_distinct};

verus! {

#[derive(Debug, Default, Clone, PartialEq, Eq)]
pub struct ApplyStats {
    pub written: usize,
    pub deleted: usize,
    /// The path and the reason for everything that could not be applied. That
    /// there is something here is no error: the restore that did happen is
    /// recorded and can be undone.
    pub failed: Vec<(String, String)>,
}

/// What `ApplyStats` stands for.
#[verifier::ext_equal]
pub struct StatsView {
    pub written: nat,
    pub deleted: nat,
    pub failed: Seq<(Seq<char>, Seq<char>)>,
}

impl View for ApplyStats {
    type V = StatsView;

    open spec fn view(&self) -> StatsView {
        StatsView {
            written: self.written as nat,
            deleted: self.deleted as nat,
            failed: Seq::new(
                self.failed@.len(),
                |i: int| (self.failed@[i].0@, self.failed@[i].1@),
            ),
        }
    }
}

/// What the name of a restore's temporary file has behind the file's own name.
pub open spec fn restore_suffix(process: nat, count: nat) -> Seq<char> {
    seq!['.'] + decimal(process) + seq!['.'] + decimal(count) + ".codex-restore-tmp"@
}

/// The temporary file beside `path`.
pub open spec fn tmp_text(path: Seq<char>, process: nat, count: nat) -> Seq<char> {
    let suffix = restore_suffix(process, count);
    match (file_name_text(path), parent_text(path)) {
        (Some(name), Some(dir)) => join_text(dir, name + suffix),
        _ => join_text(path, suffix),
    }
}

/// The temporary file beside `path`. The process and the count keep two
/// restores, or two sessions, from meeting on one name.
pub fn tmp_path(path: &str, process: u32, count: u64) -> (r: String)
    ensures
        r@ == tmp_text(path@, process as nat, count as nat),
{
    let mut suffix = String::new();
    suffix.push('.');
    suffix.append(decimal_of(process as u64).as_str());
    suffix.push('.');
    suffix.append(decimal_of(count).as_str());
    suffix.append(".codex-restore-tmp");
    assert(suffix@ =~= restore_suffix(process as nat, count as nat));
    match (file_name(path), parent(path)) {
        (Some(name), Some(dir)) => {
            let mut full = name.clone();
            full.append(suffix.as_str());
            join(dir.as_str(), full.as_str())
        },
        _ => join(path, suffix.as_str()),
    }
}

/// The temporary file is never the file itself, however it is spelled.
pub proof fn a_temporary_file_is_another_file(path: Seq<char>, process: nat, count: nat)
    ensures
        components(tmp_text(path, process, count)) != components(path),
        tmp_text(path, process, count) != path,
{
    let suffix = restore_suffix(process, count);
    reveal_strlit(".codex-restore-tmp");
    decimal_is_digits(process);
    decimal_is_digits(count);
    assert(suffix[0] == '.');
    assert(suffix.len() > 2);
    assert forall|i: int| 0 <= i < suffix.len() implies #[trigger] suffix[i] != '/' by {
        let a = decimal(process);
        let b = decimal(count);
        if 0 < i <= a.len() {
            assert(suffix[i] == a[i - 1]);
        } else if a.len() + 1 < i <= a.len() + 1 + b.len() {
            assert(suffix[i] == b[i - a.len() - 2]);
        }
    }
    components_are_names(path);
    let cs = components(path);
    match (file_name_text(path), parent_text(path)) {
        (Some(name), Some(dir)) => {
            assert(cs[cs.len() - 1] == name);
            let full = name + suffix;
            assert(is_name(name));
            assert forall|i: int| 0 <= i < full.len() implies #[trigger] full[i] != '/' by {
                if i < name.len() {
                    assert(full[i] == name[i]);
                } else {
                    assert(full[i] == suffix[i - name.len()]);
                }
            }
            assert(full.len() > name.len());
            a_joined_name_comes_last(dir, full);
        },
        _ => {
            a_joined_name_comes_last(path, suffix);
            if cs.len() > 0 {
                assert(cs.last().len() <= 2);
            }
        },
    }
}

/// What creating the temporary file gave.
#[derive(Debug, Clone, PartialEq, Eq)]
pub enum CreateOutcome {
    Written,
    /// Nothing was created: something is there already, or the directory does
    /// not take it.
    Refused(String),
    /// The file was created, and writing into it failed.
    Broken(String),
}

/// The next operation of a run.
#[derive(Debug, Clone, PartialEq, Eq)]
pub enum Operation {
    LoadBlob { hash: String },
    MakeDir { path: String },
    /// Create a file that must not exist yet, and write `content` into it.
    CreateNew { path: String, content: Vec<u8> },
    SetMode { path: String, mode: u32 },
    Rename { from: String, to: String },
    /// Remove the run's own temporary file; whether that works out does not
    /// matter.
    Discard { path: String },
    RemoveFile { path: String },
    Finished,
}

/// What an `Operation` stands for.
pub enum OperationView {
    LoadBlob { hash: Seq<char> },
    MakeDir { path: Seq<char> },
    CreateNew { path: Seq<char>, content: Seq<u8> },
    SetMode { path: Seq<char>, mode: u32 },
    Rename { from: Seq<char>, to: Seq<char> },
    Discard { path: Seq<char> },
    RemoveFile { path: Seq<char> },
    Finished,
}

impl View for Operation {
    type V = OperationView;

    open spec fn view(&self) -> OperationView {
        match self {
            Operation::LoadBlob { hash } => OperationView::LoadBlob { hash: hash@ },
            Operation::MakeDir { path } => OperationView::MakeDir { path: path@ },
            Operation::CreateNew { path, content } => OperationView::CreateNew {
                path: path@,
                content: content@,
            },
            Operation::SetMode { path, mode } => OperationView::SetMode { path: path@, mode: *mode },
            Operation::Rename { from, to } => OperationView::Rename { from: from@, to: to@ },
            Operation::Discard { path } => OperationView::Discard { path: path@ },
            Operation::RemoveFile { path } => OperationView::RemoveFile { path: path@ },
            Operation::Finished => OperationView::Finished,
        }
    }
}

/// What became of the current item.
enum Ending {
    Applied,
    Gone,
    Failed { reason: String },
}

impl Ending {
    spec fn fate(self) -> Fate {
        match self {
            Ending::Applied => Fate::Applied,
            Ending::Gone => Fate::Gone,
            Ending::Failed { reason } => Fate::Failed(reason@),
        }
    }
}

/// How far the current item is.
enum Stage {
    Load,
    Parent { content: Vec<u8> },
    Create { content: Vec<u8> },
    Mode,
    Rename,
    Discard { reason: String },
    Remove,
    Finished,
}

/// How far the current item is.
pub enum StageView {
    Load,
    Parent { content: Seq<u8> },
    Create { content: Seq<u8> },
    Mode,
    Rename,
    Discard { reason: Seq<char> },
    Remove,
    Finished,
}

/// A restore on its way.
pub struct ApplyRun {
    plan: RestorePlan,
    /// Writes that have met their fate.
    writes_done: usize,
    /// Deletes that have met their fate; they come after the writes.
    deletes_done: usize,
    stage: Stage,
    tmp: String,
    stats: ApplyStats,
}

/// What an `ApplyRun` stands for.
#[verifier::ext_equal]
pub struct RunView {
    pub plan: PlanView,
    pub at: nat,
    pub stage: StageView,
    /// The temporary file of the current item, once it has one.
    pub tmp: Seq<char>,
    pub stats: StatsView,
}

/// What became of an item.
pub enum Fate {
    /// It was written, or deleted.
    Applied,
    /// It was to be deleted and was gone already.
    Gone,
    Failed(Seq<char>),
}

/// How many items a plan has.
pub open spec fn items(plan: PlanView) -> nat {
    plan.writes.len() + plan.deletes.len()
}

/// The path of an item.
pub open spec fn item_path(plan: PlanView, at: int) -> Seq<char> {
    if at < plan.writes.len() {
        plan.writes[at].path
    } else {
        plan.deletes[at - plan.writes.len()]
    }
}

/// The stage in which an item starts.
pub open spec fn first_stage(plan: PlanView, at: nat) -> StageView {
    if at < plan.writes.len() {
        StageView::Load
    } else if at < items(plan) {
        StageView::Remove
    } else {
        StageView::Finished
    }
}

/// A run that has not begun.
pub open spec fn fresh_run(plan: PlanView) -> RunView {
    RunView {
        plan,
        at: 0,
        stage: first_stage(plan, 0),
        tmp: Seq::empty(),
        stats: StatsView { written: 0, deleted: 0, failed: Seq::empty() },
    }
}

/// The counts once an item has met its fate.
pub open spec fn tallied(plan: PlanView, stats: StatsView, at: nat, fate: Fate) -> StatsView {
    match fate {
        Fate::Applied => if at < plan.writes.len() {
            StatsView { written: stats.written + 1, ..stats }
        } else {
            StatsView { deleted: stats.deleted + 1, ..stats }
        },
        Fate::Gone => stats,
        Fate::Failed(reason) => StatsView {
            failed: stats.failed.push((item_path(plan, at as int), reason)),
            ..stats
        },
    }
}

/// The run once its current item has met its fate: the next item begins,
/// whatever the fate was.
pub open spec fn settled(run: RunView, fate: Fate) -> RunView {
    RunView {
        plan: run.plan,
        at: run.at + 1,
        stage: first_stage(run.plan, run.at + 1),
        tmp: Seq::empty(),
        stats: tallied(run.plan, run.stats, run.at, fate),
    }
}

/// The run with its current item in another stage.
pub open spec fn at_stage(run: RunView, stage: StageView) -> RunView {
    RunView { stage, ..run }
}

/// The run with its temporary file named.
pub open spec fn with_tmp(run: RunView, tmp: Seq<char>) -> RunView {
    RunView { tmp, ..run }
}

/// After the blob was read, or could not be.
pub open spec fn after_load(
    run: RunView,
    outcome: Result<Vec<u8>, String>,
    process: nat,
    count: nat,
) -> RunView {
    let path = run.plan.writes[run.at as int].path;
    match outcome {
        Err(reason) => settled(run, Fate::Failed(reason@)),
        Ok(content) => at_stage(
            with_tmp(run, tmp_text(path, process, count)),
            if parent_text(path) is Some {
                StageView::Parent { content: content@ }
            } else {
                StageView::Create { content: content@ }
            },
        ),
    }
}

/// After the directory was made, or could not be.
pub open spec fn after_dir(run: RunView, outcome: Result<(), String>) -> RunView {
    match outcome {
        Err(reason) => settled(run, Fate::Failed(reason@)),
        Ok(_) => at_stage(run, StageView::Create { content: run.stage->Parent_content }),
    }
}

/// After the temporary file was created and written, or not.
pub open spec fn after_create(run: RunView, outcome: CreateOutcome) -> RunView {
    match outcome {
        CreateOutcome::Written => at_stage(run, StageView::Mode),
        CreateOutcome::Refused(reason) => settled(run, Fate::Failed(reason@)),
        CreateOutcome::Broken(reason) => at_stage(run, StageView::Discard { reason: reason@ }),
    }
}

/// After the mode was set, or could not be.
pub open spec fn after_mode(run: RunView, outcome: Result<(), String>) -> RunView {
    match outcome {
        Ok(_) => at_stage(run, StageView::Rename),
        Err(reason) => at_stage(run, StageView::Discard { reason: reason@ }),
    }
}

/// After the temporary file took the place of the file, or could not.
pub open spec fn after_rename(run: RunView, outcome: Result<(), String>) -> RunView {
    match outcome {
        Ok(_) => settled(run, Fate::Applied),
        Err(reason) => at_stage(run, StageView::Discard { reason: reason@ }),
    }
}

/// After the temporary file was let go.
pub open spec fn after_discard(run: RunView) -> RunView {
    settled(run, Fate::Failed(run.stage->reason))
}

/// After the file was removed, was gone already, or could not be removed.
pub open spec fn after_remove(run: RunView, outcome: RemoveOutcome) -> RunView {
    settled(
        run,
        match outcome {
            RemoveOutcome::Removed => Fate::Applied,
            RemoveOutcome::NotFound => Fate::Gone,
            RemoveOutcome::Failed(reason) => Fate::Failed(reason@),
        },
    )
}

/// The operation that a run waits for.
pub open spec fn awaited(run: RunView) -> OperationView {
    match run.stage {
        StageView::Load => OperationView::LoadBlob { hash: run.plan.writes[run.at as int].hash },
        StageView::Parent { content } => OperationView::MakeDir {
            path: parent_text(run.plan.writes[run.at as int].path)->0,
        },
        StageView::Create { content } => OperationView::CreateNew { path: run.tmp, content },
        StageView::Mode => OperationView::SetMode {
            path: run.tmp,
            mode: run.plan.writes[run.at as int].mode,
        },
        StageView::Rename => OperationView::Rename {
            from: run.tmp,
            to: run.plan.writes[run.at as int].path,
        },
        StageView::Discard { reason } => OperationView::Discard { path: run.tmp },
        StageView::Remove => OperationView::RemoveFile {
            path: run.plan.deletes[run.at - run.plan.writes.len()],
        },
        StageView::Finished => OperationView::Finished,
    }
}

impl View for ApplyRun {
    type V = RunView;

    closed spec fn view(&self) -> RunView {
        RunView {
            plan: self.plan@,
            at: (self.writes_done + self.deletes_done) as nat,
            stage: match self.stage {
                Stage::Load => StageView::Load,
                Stage::Parent { content } => StageView::Parent { content: content@ },
                Stage::Create { content } => StageView::Create { content: content@ },
                Stage::Mode => StageView::Mode,
                Stage::Rename => StageView::Rename,
                Stage::Discard { reason } => StageView::Discard { reason: reason@ },
                Stage::Remove => StageView::Remove,
                Stage::Finished => StageView::Finished,
            },
            tmp: self.tmp@,
            stats: self.stats@,
        }
    }
}

/// What holds of every run: its stage is one that its current item can be in,
/// and no item is counted twice.
pub open spec fn sound(run: RunView) -> bool {
    &&& run.at <= items(run.plan)
    &&& match run.stage {
        StageView::Remove => run.plan.writes.len() <= run.at < items(run.plan),
        StageView::Finished => run.at == items(run.plan),
        StageView::Parent { content } => run.at < run.plan.writes.len() && parent_text(
            run.plan.writes[run.at as int].path,
        ) is Some,
        _ => run.at < run.plan.writes.len(),
    }
    &&& run.stats.written + run.stats.deleted + run.stats.failed.len() <= run.at
}

impl ApplyRun {
    #[verifier::type_invariant]
    spec fn well_formed(self) -> bool {
        &&& sound(self@)
        &&& self.writes_done <= self.plan.writes@.len()
        &&& self.deletes_done <= self.plan.deletes@.len()
        &&& self.deletes_done > 0 ==> self.writes_done == self.plan.writes@.len()
        &&& self.stats.written <= self.writes_done
        &&& self.stats.deleted <= self.deletes_done
    }

    /// What the run is waiting for.
    pub fn operation(&self) -> (r: Operation)
        ensures
            sound(self@),
            r@ == awaited(self@),
    {
        proof {
            use_type_invariant(self);
        }
        match &self.stage {
            Stage::Load => Operation::LoadBlob { hash: self.plan.writes[self.writes_done].hash.clone() },
            Stage::Parent { content } => {
                assert(self@.plan.writes[self.writes_done as int].path
                    == self.plan.writes@[self.writes_done as int].path@);
                match parent(self.plan.writes[self.writes_done].path.as_str()) {
                    Some(path) => Operation::MakeDir { path },
                    None => Operation::Finished,
                }
            },
            Stage::Create { content } => Operation::CreateNew {
                path: self.tmp.clone(),
                content: copied(content),
            },
            Stage::Mode => Operation::SetMode {
                path: self.tmp.clone(),
                mode: self.plan.writes[self.writes_done].mode,
            },
            Stage::Rename => Operation::Rename {
                from: self.tmp.clone(),
                to: self.plan.writes[self.writes_done].path.clone(),
            },
            Stage::Discard { reason } => Operation::Discard { path: self.tmp.clone() },
            Stage::Remove => Operation::RemoveFile {
                path: self.plan.deletes[self.deletes_done].clone(),
            },
            Stage::Finished => Operation::Finished,
        }
    }

    /// The counts so far.
    pub fn stats(&self) -> (r: &ApplyStats)
        ensures
            r@ == self@.stats,
    {
        &self.stats
    }

    /// The blob was read, or could not be.
    pub fn loaded(self, outcome: Result<Vec<u8>, String>, process: u32, count: u64) -> (r: Self)
        requires
            self@.stage is Load,
        ensures
            r@ == after_load(self@, outcome, process as nat, count as nat),
    {
        proof {
            use_type_invariant(&self);
        }
        match outcome {
            Err(reason) => self.next_item(Ending::Failed { reason }),
            Ok(content) => {
                let path = self.plan.writes[self.writes_done].path.as_str();
                let tmp = tmp_path(path, process, count);
                let has_parent = parent(path).is_some();
                let stage = if has_parent {
                    Stage::Parent { content }
                } else {
                    Stage::Create { content }
                };
                let ApplyRun { plan, writes_done, deletes_done, stats, .. } = self;
                ApplyRun { plan, writes_done, deletes_done, stage, tmp, stats }
            },
        }
    }

    /// The directory is there, or could not be made.
    pub fn made_dir(self, outcome: Result<(), String>) -> (r: Self)
        requires
            self@.stage is Parent,
        ensures
            r@ == after_dir(self@, outcome),
    {
        proof {
            use_type_invariant(&self);
        }
        match outcome {
            Err(reason) => self.next_item(Ending::Failed { reason }),
            Ok(_) => {
                let ApplyRun { plan, writes_done, deletes_done, stage, tmp, stats } = self;
                let stage = match stage {
                    Stage::Parent { content } => Stage::Create { content },
                    other => other,
                };
                ApplyRun { plan, writes_done, deletes_done, stage, tmp, stats }
            },
        }
    }

    /// The temporary file was created and written, or not.
    pub fn created(self, outcome: CreateOutcome) -> (r: Self)
        requires
            self@.stage is Create,
        ensures
            r@ == after_create(self@, outcome),
    {
        proof {
            use_type_invariant(&self);
        }
        match outcome {
            CreateOutcome::Written => self.go(Stage::Mode),
            CreateOutcome::Refused(reason) => self.next_item(Ending::Failed { reason }),
            CreateOutcome::Broken(reason) => self.go(Stage::Discard { reason }),
        }
    }

    /// The mode was set, or could not be.
    pub fn mode_set(self, outcome: Result<(), String>) -> (r: Self)
        requires
            self@.stage is Mode,
        ensures
            r@ == after_mode(self@, outcome),
    {
        proof {
            use_type_invariant(&self);
        }
        match outcome {
            Ok(_) => self.go(Stage::Rename),
            Err(reason) => self.go(Stage::Discard { reason }),
        }
    }

    /// The temporary file took the place of the file, or could not.
    pub fn renamed(self, outcome: Result<(), String>) -> (r: Self)
        requires
            self@.stage is Rename,
        ensures
            r@ == after_rename(self@, outcome),
    {
        proof {
            use_type_invariant(&self);
        }
        match outcome {
            Ok(_) => self.next_item(Ending::Applied),
            Err(reason) => self.go(Stage::Discard { reason }),
        }
    }

    /// The temporary file is gone, or as gone as it will be.
    pub fn discarded(self) -> (r: Self)
        requires
            self@.stage is Discard,
        ensures
            r@ == after_discard(self@),
    {
        proof {
            use_type_invariant(&self);
        }
        let reason = match &self.stage {
            Stage::Discard { reason } => reason.clone(),
            _ => String::new(),
        };
        self.next_item(Ending::Failed { reason })
    }

    /// The file was removed, was gone already, or could not be removed.
    pub fn removed(self, outcome: RemoveOutcome) -> (r: Self)
        requires
            self@.stage is Remove,
        ensures
            r@ == after_remove(self@, outcome),
    {
        proof {
            use_type_invariant(&self);
        }
        match outcome {
            RemoveOutcome::Removed => self.next_item(Ending::Applied),
            RemoveOutcome::NotFound => self.next_item(Ending::Gone),
            RemoveOutcome::Failed(reason) => self.next_item(Ending::Failed { reason }),
        }
    }

    /// Another stage of the same item.
    fn go(self, stage: Stage) -> (r: Self)
        requires
            self@.at < self@.plan.writes.len(),
            stage is Mode || stage is Rename || stage is Discard,
        ensures
            r.plan == self.plan,
            r.writes_done == self.writes_done,
            r.deletes_done == self.deletes_done,
            r.tmp == self.tmp,
            r.stats == self.stats,
            r.stage == stage,
    {
        proof {
            use_type_invariant(&self);
        }
        let ApplyRun { plan, writes_done, deletes_done, tmp, stats, .. } = self;
        ApplyRun { plan, writes_done, deletes_done, stage, tmp, stats }
    }

    /// The next item, now that the current one has come to its end.
    fn next_item(self, ending: Ending) -> (r: Self)
        requires
            self@.at < items(self@.plan),
        ensures
            r@ == settled(self@, ending.fate()),
    {
        proof {
            use_type_invariant(&self);
        }
        let ghost before = self@;
        let ApplyRun { plan, writes_done, deletes_done, stats, .. } = self;
        let mut stats = stats;
        let deletes: usize = plan.deletes.len();
        let writing = writes_done < plan.writes.len();
        assert(!writing ==> deletes_done < deletes);
        match ending {
            Ending::Failed { reason } => {
                let path = if writing {
                    plan.writes[writes_done].path.clone()
                } else {
                    plan.deletes[deletes_done].clone()
                };
                assert(path@ == item_path(before.plan, before.at as int));
                stats.failed.push((path, reason));
                assert(stats@.failed =~= before.stats.failed.push((path@, reason@)));
            },
            Ending::Applied => {
                if writing {
                    stats.written = stats.written + 1;
                } else {
                    stats.deleted = stats.deleted + 1;
                }
                assert(stats@.failed =~= before.stats.failed);
            },
            Ending::Gone => {},
        }
        let (writes_done, deletes_done) = if writing {
            (writes_done + 1, deletes_done)
        } else {
            (writes_done, deletes_done + 1)
        };
        let stage = if writes_done < plan.writes.len() {
            Stage::Load
        } else if deletes_done < deletes {
            Stage::Remove
        } else {
            Stage::Finished
        };
        let r = ApplyRun { plan, writes_done, deletes_done, stage, tmp: String::new(), stats };
        assert(r@.tmp =~= Seq::<char>::empty());
        r
    }
}

fn copied(v: &Vec<u8>) -> (r: Vec<u8>)
    ensures
        r@ == v@,
{
    let r = v.clone();
    assert(r@ =~= v@);
    r
}

/// Begins to apply a plan: the writes in order, then the deletes in order.
pub fn apply_plan(plan: RestorePlan) -> (r: ApplyRun)
    ensures
        r@ == fresh_run(plan@),
{
    let stage = if plan.writes.len() > 0 {
        Stage::Load
    } else if plan.deletes.len() > 0 {
        Stage::Remove
    } else {
        Stage::Finished
    };
    let stats = ApplyStats { written: 0, deleted: 0, failed: Vec::new() };
    assert(stats@.failed =~= Seq::<(Seq<char>, Seq<char>)>::empty());
    let r = ApplyRun {
        plan,
        writes_done: 0,
        deletes_done: 0,
        stage,
        tmp: String::new(),
        stats,
    };
    assert(r@.tmp =~= Seq::<char>::empty());
    r
}

/// The run in which the items have met these fates, one after another.
pub open spec fn played(plan: PlanView, fates: Seq<Fate>) -> RunView
    decreases fates.len(),
{
    if fates.len() == 0 {
        fresh_run(plan)
    } else {
        settled(played(plan, fates.drop_last()), fates.last())
    }
}

/// Nothing abandons a run: whatever became of the items before, the run goes
/// on with the next one, and it is finished exactly when every item has met
/// its fate.
pub proof fn every_item_has_its_turn(plan: PlanView, fates: Seq<Fate>)
    requires
        fates.len() <= items(plan),
    ensures
        played(plan, fates).plan == plan,
        played(plan, fates).at == fates.len(),
        played(plan, fates).stage == first_stage(plan, fates.len()),
        played(plan, fates).stage is Finished <==> fates.len() == items(plan),
    decreases fates.len(),
{
    if fates.len() > 0 {
        every_item_has_its_turn(plan, fates.drop_last());
    }
}

/// How many of the first items were applied, out of those from `lo` on.
pub open spec fn applied_from(fates: Seq<Fate>, lo: int) -> nat
    decreases fates.len(),
{
    if fates.len() == 0 {
        0
    } else {
        applied_from(fates.drop_last(), lo) + if fates.last() is Applied && fates.len() > lo {
            1nat
        } else {
            0nat
        }
    }
}

/// The path and the reason of every item that failed, in order.
pub open spec fn failures(plan: PlanView, fates: Seq<Fate>) -> Seq<(Seq<char>, Seq<char>)>
    decreases fates.len(),
{
    if fates.len() == 0 {
        Seq::empty()
    } else {
        let before = failures(plan, fates.drop_last());
        match fates.last() {
            Fate::Failed(reason) => before.push((item_path(plan, fates.len() - 1), reason)),
            _ => before,
        }
    }
}

/// The counts of a run are those of its items' fates: the writes and the
/// deletes that were applied, and everything that failed, with its reason. A
/// file that was to be deleted and was gone already counts as nothing.
pub proof fn a_run_counts_its_fates(plan: PlanView, fates: Seq<Fate>)
    requires
        fates.len() <= items(plan),
    ensures
        ({
            let stats = played(plan, fates).stats;
            &&& stats.written + stats.deleted == applied_from(fates, 0)
            &&& stats.deleted == applied_from(fates, plan.writes.len() as int)
            &&& stats.failed == failures(plan, fates)
        }),
    decreases fates.len(),
{
    if fates.len() > 0 {
        a_run_counts_its_fates(plan, fates.drop_last());
        every_item_has_its_turn(plan, fates.drop_last());
    }
}

/// The temporary file stands in the directory of the file, so that the rename
/// stays on one file system, and its name begins with the file's own.
pub proof fn a_temporary_file_is_beside_its_file(path: Seq<char>, process: nat, count: nat)
    requires
        file_name_text(path) is Some,
        parent_text(path) is Some,
    ensures
        ({
            let cs = components(tmp_text(path, process, count));
            &&& cs.len() == components(path).len()
            &&& cs.drop_last() == components(path).drop_last()
            &&& file_name_text(path)->0.is_prefix_of(cs.last())
        }),
{
    let name = file_name_text(path)->0;
    let dir = parent_text(path)->0;
    let suffix = restore_suffix(process, count);
    a_parent_has_all_but_the_last(path);
    components_are_names(path);
    let cs = components(path);
    assert(cs[cs.len() - 1] == name);
    reveal_strlit(".codex-restore-tmp");
    decimal_is_digits(process);
    decimal_is_digits(count);
    assert forall|i: int| 0 <= i < suffix.len() implies #[trigger] suffix[i] != '/' by {
        let a = decimal(process);
        let b = decimal(count);
        if 0 < i <= a.len() {
            assert(suffix[i] == a[i - 1]);
        } else if a.len() + 1 < i <= a.len() + 1 + b.len() {
            assert(suffix[i] == b[i - a.len() - 2]);
        }
    }
    let full = name + suffix;
    assert(is_name(name));
    assert(is_name(full)) by {
        assert forall|i: int| 0 <= i < full.len() implies #[trigger] full[i] != '/' by {
            if i < name.len() {
                assert(full[i] == name[i]);
            } else {
                assert(full[i] == suffix[i - name.len()]);
            }
        }
    }
    assert(full.len() > 2);
    a_joined_name_is_one_more_component(dir, full);
    let ts = components(tmp_text(path, process, count));
    assert(ts == components(dir).push(full));
    assert(ts.drop_last() =~= components(dir));
    assert(name =~= full.subrange(0, name.len() as int));
}

/// No two restores share a temporary file beside one file.
pub proof fn restores_are_kept_apart(path: Seq<char>, a: nat, b: nat, c: nat, d: nat)
    requires
        tmp_text(path, a, b) == tmp_text(path, c, d),
    ensures
        a == c,
        b == d,
{
    let x = restore_suffix(a, b);
    let y = restore_suffix(c, d);
    let front = match (file_name_text(path), parent_text(path)) {
        (Some(name), Some(dir)) => (dir, name),
        _ => (path, Seq::empty()),
    };
    components_are_names(path);
    if front.1.len() > 0 {
        let cs = components(path);
        assert(cs[cs.len() - 1] == front.1);
        assert(is_name(front.1));
        assert(front.1[0] != '/');
    }
    assert(x[0] == '.' && y[0] == '.');
    let p = front.1 + x;
    let q = front.1 + y;
    assert(Seq::<char>::empty() + x =~= x);
    assert(Seq::<char>::empty() + y =~= y);
    assert(p[0] != '/' && q[0] != '/') by {
        if front.1.len() > 0 {
            assert(p[0] == front.1[0] && q[0] == front.1[0]);
        } else {
            assert(p =~= x && q =~= y);
        }
    }
    let base = front.0;
    let lead = if base.len() == 0 || base.last() == '/' {
        base
    } else {
        base + seq!['/']
    };
    assert(tmp_text(path, a, b) =~= lead + p);
    assert(tmp_text(path, c, d) =~= lead + q);
    assert(p =~= (lead + p).skip(lead.len() as int));
    assert(q =~= (lead + q).skip(lead.len() as int));
    assert(x =~= p.skip(front.1.len() as int));
    assert(y =~= q.skip(front.1.len() as int));
    dotted_numbers_are_distinct(a, b, c, d, ".codex-restore-tmp"@);
}

/// The directory that a run asks for is the one that holds the file, and the
/// file is asked for only once the directory is there. Where no path holds the
/// file none is asked for.
pub proof fn a_directory_comes_before_its_file(
    run: RunView,
    content: Vec<u8>,
    process: nat,
    count: nat,
)
    requires
        awaited(run) is LoadBlob,
        run.at < run.plan.writes.len(),
    ensures
        ({
            let path = run.plan.writes[run.at as int].path;
            let loaded = after_load(run, Ok(content), process, count);
            let tmp = tmp_text(path, process, count);
            &&& parent_text(path) is Some ==> {
                &&& awaited(loaded) matches OperationView::MakeDir { path: dir }
                &&& components(dir) == components(path).drop_last()
                &&& awaited(after_dir(loaded, Ok(()))) == (OperationView::CreateNew {
                    path: tmp,
                    content: content@,
                })
            }
            &&& parent_text(path) is None ==> awaited(loaded) == (OperationView::CreateNew {
                path: tmp,
                content: content@,
            })
        }),
{
    a_parent_has_all_but_the_last(run.plan.writes[run.at as int].path);
}

/// What a run asks for and what it counts stand for themselves.
pub proof fn operations_and_counts_stand_for_themselves(stats: ApplyStats, i: int)
    requires
        0 <= i < stats.failed@.len(),
    ensures
        stats@.written == stats.written,
        stats@.deleted == stats.deleted,
        stats@.failed.len() == stats.failed@.len(),
        stats@.failed[i] == (stats.failed@[i].0@, stats.failed@[i].1@),
        forall|path: String, content: Vec<u8>| #[trigger]
            (Operation::CreateNew { path, content })@ == (OperationView::CreateNew {
                path: path@,
                content: content@,
            }),
        forall|hash: String| #[trigger]
            (Operation::LoadBlob { hash })@ == (OperationView::LoadBlob { hash: hash@ }),
        forall|path: String| #[trigger]
            (Operation::MakeDir { path })@ == (OperationView::MakeDir { path: path@ }),
        forall|path: String, mode: u32| #[trigger]
            (Operation::SetMode { path, mode })@ == (OperationView::SetMode { path: path@, mode }),
        forall|from: String, to: String| #[trigger]
            (Operation::Rename { from, to })@ == (OperationView::Rename { from: from@, to: to@ }),
        forall|path: String| #[trigger]
            (Operation::Discard { path })@ == (OperationView::Discard { path: path@ }),
        forall|path: String| #[trigger]
            (Operation::RemoveFile { path })@ == (OperationView::RemoveFile { path: path@ }),
{
}

/// A failure is reported with the path of its item and the reason that was
/// given, behind those before it, and is counted nowhere else.
pub proof fn a_failure_is_reported_with_its_reason(run: RunView, reason: Seq<char>)
    requires
        run.at < items(run.plan),
    ensures
        ({
            let after = settled(run, Fate::Failed(reason)).stats;
            let path = if run.at < run.plan.writes.len() {
                run.plan.writes[run.at as int].path
            } else {
                run.plan.deletes[run.at - run.plan.writes.len()]
            };
            &&& after.failed == run.stats.failed.push((path, reason))
            &&& after.written == run.stats.written
            &&& after.deleted == run.stats.deleted
        }),
{
}

/// Whatever is refused fails its item with the reason that was given, at once
/// or once the temporary file is gone.
pub proof fn a_refusal_fails_the_item(run: RunView, reason: String)
    ensures
        after_load(run, Err(reason), 0, 0) == settled(run, Fate::Failed(reason@)),
        after_dir(run, Err(reason)) == settled(run, Fate::Failed(reason@)),
        after_create(run, CreateOutcome::Refused(reason)) == settled(run, Fate::Failed(reason@)),
        after_remove(run, RemoveOutcome::Failed(reason)) == settled(run, Fate::Failed(reason@)),
        awaited(after_create(run, CreateOutcome::Broken(reason))) == (OperationView::Discard {
            path: run.tmp,
        }),
        awaited(after_mode(run, Err(reason))) == (OperationView::Discard { path: run.tmp }),
        awaited(after_rename(run, Err(reason))) == (OperationView::Discard { path: run.tmp }),
        ({
            let given_up = after_discard(after_mode(run, Err(reason)));
            &&& given_up.stats == settled(run, Fate::Failed(reason@)).stats
            &&& given_up.at == run.at + 1
        }),
        after_discard(after_create(run, CreateOutcome::Broken(reason))) == after_discard(
            after_mode(run, Err(reason)),
        ),
        after_discard(after_rename(run, Err(reason))) == after_discard(
            after_mode(run, Err(reason)),
        ),
{
}

/// What was done is counted once, for what it was: a file that took its place
/// as written, a file that was removed as deleted. A file that was gone already
/// is counted nowhere and is no failure. Either way the next item begins.
pub proof fn what_was_done_is_counted_once(run: RunView)
    requires
        run.at < items(run.plan),
    ensures
        run.at < run.plan.writes.len() ==> ({
            let after = after_rename(run, Ok(()));
            &&& after.stats.written == run.stats.written + 1
            &&& after.stats.deleted == run.stats.deleted
            &&& after.stats.failed == run.stats.failed
            &&& after.at == run.at + 1
        }),
        run.at >= run.plan.writes.len() ==> ({
            let after = after_remove(run, RemoveOutcome::Removed);
            let gone = after_remove(run, RemoveOutcome::NotFound);
            &&& after.stats.written == run.stats.written
            &&& after.stats.deleted == run.stats.deleted + 1
            &&& after.stats.failed == run.stats.failed
            &&& after.at == run.at + 1
            &&& gone.stats == run.stats
            &&& gone.at == run.at + 1
        }),
{
}

} // verus!
