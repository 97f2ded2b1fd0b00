//! Publishing a blob on disk, one file-system operation at a time.
//!
//! A blob is written to a temporary file, which is then renamed into place, so
//! that a blob is there in full or not at all. Writers are not coordinated and
//! need not be: two writers that race for one hash write the same bytes.

use vstd::prelude::*;

use crate::blob::{has_place, in_flight_suffix, place_of, BlobStore};
use crate::error::SnapshotError;
use crate::paths::{
    a_parent_has_all_but_the_last, components, parent, parent_text, text_if,
};

verus! {

/// The next operation of a publication.
#[derive(Debug, Clone, PartialEq, Eq)]
pub enum PublishStep {
    /// Say whether something is at the blob's place.
    LookUp { path: String },
    MakeDir { path: String },
    WriteFile { path: String },
    Rename { from: String, to: String },
    /// Remove the temporary file; whether that works out does not matter.
    Discard { path: String },
    Finished,
}

/// What a `PublishStep` stands for.
pub enum PublishStepView {
    LookUp { path: Seq<char> },
    MakeDir { path: Seq<char> },
    WriteFile { path: Seq<char> },
    Rename { from: Seq<char>, to: Seq<char> },
    Discard { path: Seq<char> },
    Finished,
}

impl View for PublishStep {
    type V = PublishStepView;

    open spec fn view(&self) -> PublishStepView {
        match self {
            PublishStep::LookUp { path } => PublishStepView::LookUp { path: path@ },
            PublishStep::MakeDir { path } => PublishStepView::MakeDir { path: path@ },
            PublishStep::WriteFile { path } => PublishStepView::WriteFile { path: path@ },
            PublishStep::Rename { from, to } => PublishStepView::Rename { from: from@, to: to@ },
            PublishStep::Discard { path } => PublishStepView::Discard { path: path@ },
            PublishStep::Finished => PublishStepView::Finished,
        }
    }
}

/// How far a publication is.
enum Stage {
    LookUp,
    MakeDir,
    Write,
    Rename,
    LookAgain { reason: String },
    Discard { reason: Option<String> },
    Done,
    Failed { path: String, reason: String },
}

/// How far a publication is.
pub enum PublishStage {
    /// A blob that is there is not written again.
    LookUp,
    MakeDir,
    Write,
    Rename,
    /// The rename failed for this reason; is someone else's blob there?
    LookAgain { reason: Seq<char> },
    /// The temporary file is to go. Where there is a reason nothing was
    /// published.
    Discard { reason: Option<Seq<char>> },
    Done,
    /// What the file system refused, and why.
    Failed { path: Seq<char>, reason: Seq<char> },
}

/// A blob on its way to its place.
pub struct PublishRun {
    path: String,
    dir: Option<String>,
    tmp: String,
    stage: Stage,
}

/// What a `PublishRun` stands for.
#[verifier::ext_equal]
pub struct PublishView {
    /// The blob's place.
    pub path: Seq<char>,
    /// The directory of the blob's place.
    pub dir: Option<Seq<char>>,
    /// The temporary file.
    pub tmp: Seq<char>,
    pub stage: PublishStage,
}

impl View for PublishRun {
    type V = PublishView;

    closed spec fn view(&self) -> PublishView {
        PublishView {
            path: self.path@,
            dir: text_if(self.dir),
            tmp: self.tmp@,
            stage: match self.stage {
                Stage::LookUp => PublishStage::LookUp,
                Stage::MakeDir => PublishStage::MakeDir,
                Stage::Write => PublishStage::Write,
                Stage::Rename => PublishStage::Rename,
                Stage::LookAgain { reason } => PublishStage::LookAgain { reason: reason@ },
                Stage::Discard { reason } => PublishStage::Discard { reason: text_if(reason) },
                Stage::Done => PublishStage::Done,
                Stage::Failed { path, reason } => PublishStage::Failed {
                    path: path@,
                    reason: reason@,
                },
            },
        }
    }
}

/// A publication that has not begun: the blob of `hash` is to go to its place
/// under `root`.
pub open spec fn unpublished(
    root: Seq<char>,
    hash: Seq<char>,
    process: nat,
    count: nat,
) -> PublishView {
    PublishView {
        path: place_of(root, hash),
        dir: parent_text(place_of(root, hash)),
        tmp: place_of(root, hash) + in_flight_suffix(process, count),
        stage: PublishStage::LookUp,
    }
}

/// The publication in another stage.
pub open spec fn at_stage(run: PublishView, stage: PublishStage) -> PublishView {
    PublishView { stage, ..run }
}

/// The operation that a publication waits for.
pub open spec fn awaited(run: PublishView) -> PublishStepView {
    match run.stage {
        PublishStage::LookUp => PublishStepView::LookUp { path: run.path },
        PublishStage::MakeDir => PublishStepView::MakeDir { path: run.dir->0 },
        PublishStage::Write => PublishStepView::WriteFile { path: run.tmp },
        PublishStage::Rename => PublishStepView::Rename { from: run.tmp, to: run.path },
        PublishStage::LookAgain { reason } => PublishStepView::LookUp { path: run.path },
        PublishStage::Discard { reason } => PublishStepView::Discard { path: run.tmp },
        PublishStage::Done => PublishStepView::Finished,
        PublishStage::Failed { path, reason } => PublishStepView::Finished,
    }
}

/// After the look-up. The first time, a blob that is there ends the
/// publication: an existing blob is never rewritten. After a failed rename it
/// means that another writer was first, which is success: what is there has
/// this hash, so it is this content.
pub open spec fn after_look(run: PublishView, is_there: bool) -> PublishView {
    at_stage(
        run,
        match run.stage {
            PublishStage::LookAgain { reason } => PublishStage::Discard {
                reason: if is_there {
                    None
                } else {
                    Some(reason)
                },
            },
            _ => if is_there {
                PublishStage::Done
            } else if run.dir is Some {
                PublishStage::MakeDir
            } else {
                PublishStage::Write
            },
        },
    )
}

/// After the directory was made, or was refused for a reason.
pub open spec fn after_dir(run: PublishView, refused: Option<Seq<char>>) -> PublishView {
    at_stage(
        run,
        match refused {
            None => PublishStage::Write,
            Some(reason) => PublishStage::Failed { path: run.dir->0, reason },
        },
    )
}

/// After the temporary file was written, or was refused for a reason.
pub open spec fn after_write(run: PublishView, refused: Option<Seq<char>>) -> PublishView {
    at_stage(
        run,
        match refused {
            None => PublishStage::Rename,
            Some(reason) => PublishStage::Failed { path: run.tmp, reason },
        },
    )
}

/// After the rename, or after it was refused for a reason.
pub open spec fn after_rename(run: PublishView, refused: Option<Seq<char>>) -> PublishView {
    at_stage(
        run,
        match refused {
            None => PublishStage::Done,
            Some(reason) => PublishStage::LookAgain { reason },
        },
    )
}

/// After the temporary file was let go.
pub open spec fn after_discard(run: PublishView) -> PublishView {
    at_stage(
        run,
        match run.stage->Discard_reason {
            None => PublishStage::Done,
            Some(reason) => PublishStage::Failed { path: run.path, reason },
        },
    )
}

/// Why something was refused, if it was.
pub open spec fn refusal(outcome: Result<(), String>) -> Option<Seq<char>> {
    match outcome {
        Ok(_) => None,
        Err(reason) => Some(reason@),
    }
}

impl PublishRun {
    /// Where the directory is to be made there is one.
    #[verifier::type_invariant]
    spec fn well_formed(self) -> bool {
        self.stage is MakeDir ==> self.dir is Some
    }

    /// Begins to publish the blob of `hash` in the place that `store` has for
    /// it.
    pub fn new(store: &BlobStore, hash: &str, process: u32, count: u64) -> (r: Self)
        requires
            has_place(hash@),
        ensures
            r@ == unpublished(store.root(), hash@, process as nat, count as nat),
    {
        let path = store.path_for(hash);
        let dir = parent(path.as_str());
        let tmp = store.tmp_path_for(hash, process, count);
        PublishRun { path, dir, tmp, stage: Stage::LookUp }
    }

    /// The next thing to do.
    pub fn step(&self) -> (r: PublishStep)
        ensures
            r@ == awaited(self@),
    {
        proof {
            use_type_invariant(self);
        }
        match &self.stage {
            Stage::LookUp => PublishStep::LookUp { path: self.path.clone() },
            Stage::MakeDir => match &self.dir {
                Some(dir) => PublishStep::MakeDir { path: dir.clone() },
                None => PublishStep::Finished,
            },
            Stage::Write => PublishStep::WriteFile { path: self.tmp.clone() },
            Stage::Rename => PublishStep::Rename { from: self.tmp.clone(), to: self.path.clone() },
            Stage::LookAgain { reason } => PublishStep::LookUp { path: self.path.clone() },
            Stage::Discard { reason } => PublishStep::Discard { path: self.tmp.clone() },
            Stage::Done => PublishStep::Finished,
            Stage::Failed { path, reason } => PublishStep::Finished,
        }
    }

    /// Whether something is at the blob's place.
    pub fn looked_up(self, is_there: bool) -> (r: Self)
        requires
            self@.stage is LookUp || self@.stage is LookAgain,
        ensures
            r@ == after_look(self@, is_there),
    {
        let has_dir = self.dir.is_some();
        let stage = match self.stage {
            Stage::LookAgain { reason } => Stage::Discard {
                reason: if is_there {
                    None
                } else {
                    Some(reason)
                },
            },
            _ => if is_there {
                Stage::Done
            } else if has_dir {
                Stage::MakeDir
            } else {
                Stage::Write
            },
        };
        PublishRun { path: self.path, dir: self.dir, tmp: self.tmp, stage }
    }

    /// The directory is there, or could not be made.
    pub fn made_dir(self, outcome: Result<(), String>) -> (r: Self)
        requires
            self@.stage is MakeDir,
        ensures
            r@ == after_dir(self@, refusal(outcome)),
    {
        proof {
            use_type_invariant(&self);
        }
        let stage = match outcome {
            Ok(_) => Stage::Write,
            Err(reason) => {
                let path = match &self.dir {
                    Some(dir) => dir.clone(),
                    None => self.path.clone(),
                };
                Stage::Failed { path, reason }
            },
        };
        PublishRun { path: self.path, dir: self.dir, tmp: self.tmp, stage }
    }

    /// The temporary file was written, or could not be.
    pub fn written(self, outcome: Result<(), String>) -> (r: Self)
        requires
            self@.stage is Write,
        ensures
            r@ == after_write(self@, refusal(outcome)),
    {
        let stage = match outcome {
            Ok(_) => Stage::Rename,
            Err(reason) => Stage::Failed { path: self.tmp.clone(), reason },
        };
        PublishRun { path: self.path, dir: self.dir, tmp: self.tmp, stage }
    }

    /// The temporary file is in the blob's place, or could not be put there.
    pub fn renamed(self, outcome: Result<(), String>) -> (r: Self)
        requires
            self@.stage is Rename,
        ensures
            r@ == after_rename(self@, refusal(outcome)),
    {
        let stage = match outcome {
            Ok(_) => Stage::Done,
            Err(reason) => Stage::LookAgain { reason },
        };
        PublishRun { path: self.path, dir: self.dir, tmp: self.tmp, stage }
    }

    /// The temporary file is gone, or as gone as it will be.
    pub fn discarded(self) -> (r: Self)
        requires
            self@.stage is Discard,
        ensures
            r@ == after_discard(self@),
    {
        let stage = match self.stage {
            Stage::Discard { reason } => match reason {
                None => Stage::Done,
                Some(reason) => Stage::Failed { path: self.path.clone(), reason },
            },
            other => other,
        };
        PublishRun { path: self.path, dir: self.dir, tmp: self.tmp, stage }
    }

    /// How the publication ended.
    pub fn outcome(self) -> (r: Result<(), SnapshotError>)
        requires
            self@.stage is Done || self@.stage is Failed,
        ensures
            match self@.stage {
                PublishStage::Failed { path, reason } => r matches Err(
                    SnapshotError::Io { path: p, reason: why },
                ) && p@ == path && why@ == reason,
                _ => r is Ok,
            },
    {
        match self.stage {
            Stage::Failed { path, reason } => Err(SnapshotError::Io { path, reason }),
            _ => Ok(()),
        }
    }
}

/// What happened to a publication: the file system answered, or another writer
/// of the same blob put it in place.
pub enum PublishEvent {
    Looked,
    DirMade,
    DirRefused(Seq<char>),
    Written,
    /// The write broke off, and left this much.
    WriteRefused(Seq<char>, Option<Seq<u8>>),
    Renamed,
    RenameRefused(Seq<char>),
    Discarded,
    DiscardRefused,
    Raced,
}

/// A publication and the files that it works on.
#[verifier::ext_equal]
pub struct Publishing {
    pub run: PublishView,
    pub files: Map<Seq<char>, Seq<u8>>,
}

/// The event can happen now: it answers what the publication asks for.
pub open spec fn can_happen(s: Publishing, event: PublishEvent) -> bool {
    match event {
        PublishEvent::Looked => awaited(s.run) is LookUp,
        PublishEvent::DirMade | PublishEvent::DirRefused(_) => awaited(s.run) is MakeDir,
        PublishEvent::Written | PublishEvent::WriteRefused(_, _) => awaited(s.run) is WriteFile,
        PublishEvent::Renamed => awaited(s.run) matches PublishStepView::Rename { from, to }
            && s.files.contains_key(from),
        PublishEvent::RenameRefused(_) => awaited(s.run) is Rename,
        PublishEvent::Discarded | PublishEvent::DiscardRefused => awaited(s.run) is Discard,
        PublishEvent::Raced => true,
    }
}

/// What an event does to the publication of `content`, and to the files: what
/// was asked for is done, or it was refused and nothing is.
pub open spec fn happened(s: Publishing, content: Seq<u8>, event: PublishEvent) -> Publishing {
    let asked = awaited(s.run);
    match event {
        PublishEvent::Looked => Publishing {
            run: after_look(s.run, s.files.contains_key(asked->LookUp_path)),
            files: s.files,
        },
        PublishEvent::DirMade => Publishing { run: after_dir(s.run, None), files: s.files },
        PublishEvent::DirRefused(reason) => Publishing {
            run: after_dir(s.run, Some(reason)),
            files: s.files,
        },
        PublishEvent::Written => Publishing {
            run: after_write(s.run, None),
            files: s.files.insert(asked->WriteFile_path, content),
        },
        PublishEvent::WriteRefused(reason, left) => Publishing {
            run: after_write(s.run, Some(reason)),
            files: match left {
                Some(bytes) => s.files.insert(asked->WriteFile_path, bytes),
                None => s.files,
            },
        },
        PublishEvent::Renamed => Publishing {
            run: after_rename(s.run, None),
            files: s.files.remove(asked->from).insert(asked->to, s.files[asked->from]),
        },
        PublishEvent::RenameRefused(reason) => Publishing {
            run: after_rename(s.run, Some(reason)),
            files: s.files,
        },
        PublishEvent::Discarded => Publishing {
            run: after_discard(s.run),
            files: s.files.remove(asked->Discard_path),
        },
        PublishEvent::DiscardRefused => Publishing { run: after_discard(s.run), files: s.files },
        PublishEvent::Raced => Publishing {
            run: s.run,
            files: s.files.insert(s.run.path, content),
        },
    }
}

/// The publication once these events have happened, one after another.
pub open spec fn events_happened(
    s: Publishing,
    content: Seq<u8>,
    events: Seq<PublishEvent>,
) -> Publishing
    decreases events.len(),
{
    if events.len() == 0 {
        s
    } else {
        happened(events_happened(s, content, events.drop_last()), content, events.last())
    }
}

/// Each event could happen when it did.
pub open spec fn all_can_happen(s: Publishing, content: Seq<u8>, events: Seq<PublishEvent>) -> bool
    decreases events.len(),
{
    events.len() > 0 ==> all_can_happen(s, content, events.drop_last()) && can_happen(
        events_happened(s, content, events.drop_last()),
        events.last(),
    )
}

/// Every file but two is as it was.
pub open spec fn rest_untouched(
    before: Map<Seq<char>, Seq<u8>>,
    after: Map<Seq<char>, Seq<u8>>,
    one: Seq<char>,
    other: Seq<char>,
) -> bool {
    forall|p: Seq<char>|
        p != one && p != other ==> (#[trigger] after.contains_key(p) == before.contains_key(p)) && (
        before.contains_key(p) ==> after[p] == before[p])
}

/// What every event keeps.
proof fn in_full_or_not_at_all(s: Publishing, content: Seq<u8>, events: Seq<PublishEvent>)
    requires
        s.run.stage is LookUp,
        s.run.tmp != s.run.path,
        s.files.contains_key(s.run.path) ==> s.files[s.run.path] == content,
        all_can_happen(s, content, events),
    ensures
        ({
            let end = events_happened(s, content, events);
            &&& end.run.path == s.run.path
            &&& end.run.tmp == s.run.tmp
            &&& end.files.contains_key(s.run.path) ==> end.files[s.run.path] == content
            &&& s.files.contains_key(s.run.path) ==> end.files.contains_key(s.run.path)
            &&& end.run.stage is Done ==> end.files.contains_key(s.run.path)
            &&& end.run.stage is Discard && end.run.stage->Discard_reason is None
                ==> end.files.contains_key(s.run.path)
            &&& end.run.stage is Rename ==> end.files.contains_key(s.run.tmp)
                && end.files[s.run.tmp] == content
            &&& rest_untouched(s.files, end.files, s.run.path, s.run.tmp)
        }),
    decreases events.len(),
{
    if events.len() > 0 {
        in_full_or_not_at_all(s, content, events.drop_last());
        let before = events_happened(s, content, events.drop_last());
        let end = events_happened(s, content, events);
        assert(rest_untouched(before.files, end.files, s.run.path, s.run.tmp));
        assert(end.files.contains_key(s.run.path) ==> end.files[s.run.path] == content);
        assert(rest_untouched(s.files, end.files, s.run.path, s.run.tmp));
    }
}

/// A blob is there in full or not at all, whatever the file system refuses,
/// wherever the publication is cut off and whoever else writes the same blob.
/// One that was there stays, and one whose publication succeeded is there.
/// Nothing else is touched but the temporary file.
pub proof fn a_blob_is_there_in_full_or_not_at_all(
    root: Seq<char>,
    hash: Seq<char>,
    process: nat,
    count: nat,
    files: Map<Seq<char>, Seq<u8>>,
    content: Seq<u8>,
    events: Seq<PublishEvent>,
)
    requires
        files.contains_key(place_of(root, hash)) ==> files[place_of(root, hash)] == content,
        all_can_happen(
            (Publishing { run: unpublished(root, hash, process, count), files }),
            content,
            events,
        ),
    ensures
        ({
            let run = unpublished(root, hash, process, count);
            let end = events_happened(Publishing { run, files }, content, events);
            &&& end.files.contains_key(run.path) ==> end.files[run.path] == content
            &&& files.contains_key(run.path) ==> end.files.contains_key(run.path)
            &&& end.run.stage is Done ==> end.files.contains_key(run.path)
            &&& rest_untouched(files, end.files, run.path, run.tmp)
        }),
{
    let run = unpublished(root, hash, process, count);
    assert(in_flight_suffix(process, count).len() > 0);
    assert(run.tmp.len() > run.path.len());
    in_full_or_not_at_all(Publishing { run, files }, content, events);
}

/// How far a publication is.
spec fn stage_place(stage: PublishStage) -> int {
    match stage {
        PublishStage::LookUp => 0,
        PublishStage::MakeDir => 1,
        PublishStage::Write => 2,
        PublishStage::Rename => 3,
        PublishStage::LookAgain { reason } => 4,
        PublishStage::Discard { reason } => 5,
        PublishStage::Done => 6,
        PublishStage::Failed { path, reason } => 6,
    }
}

/// The events that answer something.
pub open spec fn answers_only(events: Seq<PublishEvent>) -> bool {
    forall|i: int| 0 <= i < events.len() ==> !(#[trigger] events[i] is Raced)
}

/// A refusal of what a publication cannot do without.
pub open spec fn is_refusal(event: PublishEvent) -> bool {
    event is DirRefused || event is WriteRefused || event is RenameRefused
}

/// What every answer keeps of the stages.
proof fn a_publication_gets_on(s: Publishing, content: Seq<u8>, events: Seq<PublishEvent>)
    requires
        s.run.stage is LookUp,
        all_can_happen(s, content, events),
        answers_only(events),
    ensures
        ({
            let end = events_happened(s, content, events);
            &&& events.len() <= stage_place(end.run.stage)
            &&& end.run.path == s.run.path
            &&& end.run.tmp == s.run.tmp
            &&& end.run.dir == s.run.dir
            &&& end.run.stage is MakeDir ==> s.run.dir is Some
            &&& end.run.stage is Failed ==> exists|i: int|
                0 <= i < events.len() && is_refusal(#[trigger] events[i])
            &&& end.run.stage is LookAgain || end.run.stage is Discard ==> exists|i: int|
                0 <= i < events.len() && is_refusal(#[trigger] events[i])
        }),
    decreases events.len(),
{
    if events.len() > 0 {
        let front = events.drop_last();
        assert forall|i: int| 0 <= i < front.len() implies !(#[trigger] front[i] is Raced) by {
            assert(front[i] == events[i]);
        }
        a_publication_gets_on(s, content, front);
        let mid = events_happened(s, content, front);
        if exists|i: int| 0 <= i < front.len() && is_refusal(#[trigger] front[i]) {
            let i = choose|i: int| 0 <= i < front.len() && is_refusal(#[trigger] front[i]);
            assert(is_refusal(events[i]));
        }
        assert(!(events[events.len() - 1] is Raced));
        if is_refusal(events.last()) {
            assert(is_refusal(events[events.len() - 1]));
        }
    }
}

/// A publication ends after six answers at most, and fails only where something
/// was refused. Where nothing is refused and it has ended, it has succeeded.
pub proof fn a_publication_fails_only_where_it_is_refused(
    root: Seq<char>,
    hash: Seq<char>,
    process: nat,
    count: nat,
    files: Map<Seq<char>, Seq<u8>>,
    content: Seq<u8>,
    events: Seq<PublishEvent>,
)
    requires
        all_can_happen(
            (Publishing { run: unpublished(root, hash, process, count), files }),
            content,
            events,
        ),
        answers_only(events),
    ensures
        events.len() <= 6,
        ({
            let run = unpublished(root, hash, process, count);
            let end = events_happened(Publishing { run, files }, content, events);
            &&& awaited(end.run) is Finished <==> end.run.stage is Done || end.run.stage is Failed
            &&& end.run.stage is Failed ==> exists|i: int|
                0 <= i < events.len() && is_refusal(#[trigger] events[i])
        }),
{
    a_publication_gets_on(
        Publishing { run: unpublished(root, hash, process, count), files },
        content,
        events,
    );
}

/// What a publication asks for first is whether the blob is there; if it is,
/// nothing more happens. If it is not, and nothing is refused, it asks for the
/// blob's directory, for the temporary file, and for its rename to the blob's
/// place, and has then succeeded.
pub proof fn a_publication_asks_in_order(
    root: Seq<char>,
    hash: Seq<char>,
    process: nat,
    count: nat,
)
    requires
        parent_text(place_of(root, hash)) is Some,
    ensures
        ({
            let place = place_of(root, hash);
            let tmp = place + in_flight_suffix(process, count);
            let run = unpublished(root, hash, process, count);
            let missing = after_look(run, false);
            let written = after_dir(missing, None);
            let renamed = after_write(written, None);
            &&& awaited(run) == (PublishStepView::LookUp { path: place })
            &&& after_look(run, true).stage is Done
            &&& awaited(missing) matches PublishStepView::MakeDir { path }
            &&& components(path) == components(place).drop_last()
            &&& awaited(written) == (PublishStepView::WriteFile { path: tmp })
            &&& awaited(renamed) == (PublishStepView::Rename { from: tmp, to: place })
            &&& after_rename(renamed, None).stage is Done
        }),
{
    a_parent_has_all_but_the_last(place_of(root, hash));
}

/// A publication that was refused its directory or its temporary file fails
/// there, with the reason. One that was refused the rename looks again, lets
/// its temporary file go, and has succeeded if another writer was first; else
/// it fails at the blob's place, with the reason.
pub proof fn a_refusal_is_reported_where_it_came(run: PublishView, reason: Seq<char>, is_there: bool)
    ensures
        run.dir matches Some(dir) ==> after_dir(run, Some(reason)).stage
            == (PublishStage::Failed { path: dir, reason }),
        after_write(run, Some(reason)).stage == (PublishStage::Failed { path: run.tmp, reason }),
        ({
            let again = after_rename(run, Some(reason));
            let letting_go = after_look(again, is_there);
            &&& awaited(again) == (PublishStepView::LookUp { path: run.path })
            &&& awaited(letting_go) == (PublishStepView::Discard { path: run.tmp })
            &&& after_discard(letting_go).stage == if is_there {
                PublishStage::Done
            } else {
                PublishStage::Failed { path: run.path, reason }
            }
        }),
{
}

/// What a publication asks for stands for itself.
pub proof fn steps_stand_for_themselves()
    ensures
        forall|path: String| #[trigger]
            (PublishStep::LookUp { path })@ == (PublishStepView::LookUp { path: path@ }),
        forall|path: String| #[trigger]
            (PublishStep::MakeDir { path })@ == (PublishStepView::MakeDir { path: path@ }),
        forall|path: String| #[trigger]
            (PublishStep::WriteFile { path })@ == (PublishStepView::WriteFile { path: path@ }),
        forall|from: String, to: String| #[trigger]
            (PublishStep::Rename { from, to })@ == (PublishStepView::Rename {
                from: from@,
                to: to@,
            }),
        forall|path: String| #[trigger]
            (PublishStep::Discard { path })@ == (PublishStepView::Discard { path: path@ }),
{
}

} // verus!
