//! Records that point at manifests.
//!
//! Each thread has a log of the turns it captured, in order, each with its
//! manifest. A turn index, shared by all threads, says what the files looked
//! like at the start of a turn. A stack of restore records per destination
//! says what an undo goes back to. Snapshots live as long as something here
//! points at them: no timers, no retention windows.

use vstd::prelude::*;

use crate::paths::{join, join_text};
use crate::table::{Duplicate, NameSet, Table};
use crate::text::{chars_of, lists_sorted, sorted};

verus! {

/// How many restore records are kept for one destination.
pub const MAX_RESTORES: usize = 20;

/// One capture of a thread.
#[derive(Debug, Clone, PartialEq, Eq)]
pub struct SnapshotRef {
    pub turn_id: String,
    pub manifest_id: String,
}

/// What a `SnapshotRef` stands for.
pub struct RefView {
    pub turn_id: Seq<char>,
    pub manifest_id: Seq<char>,
}

impl View for SnapshotRef {
    type V = RefView;

    open spec fn view(&self) -> RefView {
        RefView { turn_id: self.turn_id@, manifest_id: self.manifest_id@ }
    }
}

impl Duplicate for SnapshotRef {
    fn duplicate(&self) -> (r: Self) {
        SnapshotRef { turn_id: self.turn_id.clone(), manifest_id: self.manifest_id.clone() }
    }
}

/// The captures of a thread, in order.
#[derive(Debug, Clone, Default, PartialEq, Eq)]
pub struct ThreadLog {
    pub entries: Vec<SnapshotRef>,
}

impl View for ThreadLog {
    type V = Seq<RefView>;

    open spec fn view(&self) -> Seq<RefView> {
        Seq::new(self.entries@.len(), |i: int| self.entries@[i]@)
    }
}

impl Duplicate for ThreadLog {
    fn duplicate(&self) -> (r: Self) {
        let r = ThreadLog { entries: duplicates(&self.entries) };
        assert(r@ =~= self@);
        r
    }
}

/// A restore that can be undone.
#[derive(Debug, Clone, PartialEq, Eq)]
pub struct RestoreRecord {
    /// The manifest that was restored.
    pub target: String,
    /// The manifest of what was there before.
    pub safety: String,
}

/// What a `RestoreRecord` stands for.
pub struct RecordView {
    pub target: Seq<char>,
    pub safety: Seq<char>,
}

impl View for RestoreRecord {
    type V = RecordView;

    open spec fn view(&self) -> RecordView {
        RecordView { target: self.target@, safety: self.safety@ }
    }
}

impl Duplicate for RestoreRecord {
    fn duplicate(&self) -> (r: Self) {
        RestoreRecord { target: self.target.clone(), safety: self.safety.clone() }
    }
}

/// The restores of one destination that can be undone, the latest last.
#[derive(Debug, Clone, Default, PartialEq, Eq)]
pub struct RestoreLog {
    pub records: Vec<RestoreRecord>,
}

impl View for RestoreLog {
    type V = Seq<RecordView>;

    open spec fn view(&self) -> Seq<RecordView> {
        Seq::new(self.records@.len(), |i: int| self.records@[i]@)
    }
}

impl Duplicate for RestoreLog {
    fn duplicate(&self) -> (r: Self) {
        let r = RestoreLog { records: duplicates(&self.records) };
        assert(r@ =~= self@);
        r
    }
}

/// A copy of every item, in order.
fn duplicates<T: Duplicate>(v: &Vec<T>) -> (r: Vec<T>)
    ensures
        r@.len() == v@.len(),
        forall|i: int| 0 <= i < v@.len() ==> (#[trigger] r@[i])@ == v@[i]@,
{
    let mut r: Vec<T> = Vec::new();
    for i in 0..v.len()
        invariant
            r@.len() == i,
            forall|j: int| 0 <= j < i ==> (#[trigger] r@[j])@ == v@[j]@,
    {
        r.push(v[i].duplicate());
    }
    r
}

/// A character that a file name can hold on every system.
pub open spec fn is_safe(c: char) -> bool {
    ||| '0' <= c <= '9'
    ||| 'a' <= c <= 'z'
    ||| 'A' <= c <= 'Z'
    ||| c == '-'
    ||| c == '_'
    ||| c == '.'
}

/// The name of the record of an id: every other character becomes `_`.
pub open spec fn record_text(id: Seq<char>) -> Seq<char> {
    Seq::new(
        id.len(),
        |i: int|
            if is_safe(id[i]) {
                id[i]
            } else {
                '_'
            },
    )
}

/// The name of the record of an id.
pub fn record_name(id: &str) -> (r: String)
    ensures
        r@ == record_text(id@),
{
    let chars = chars_of(id);
    let mut r = String::new();
    for i in 0..chars.len()
        invariant
            chars@ == id@,
            r@ == record_text(id@).take(i as int),
    {
        let c = chars[i];
        let safe = ('0' <= c && c <= '9') || ('a' <= c && c <= 'z') || ('A' <= c && c <= 'Z') || c
            == '-' || c == '_' || c == '.';
        r.push(
            if safe {
                c
            } else {
                '_'
            },
        );
        assert(r@ =~= record_text(id@).take(i + 1));
    }
    assert(r@ =~= record_text(id@));
    r
}

/// Logs, turn index and restore records, each under the name of its record.
pub struct RefStore {
    root: String,
    logs: Table<ThreadLog>,
    turns: Table<String>,
    restores: Table<RestoreLog>,
}

/// What a `RefStore` stands for.
#[verifier::ext_equal]
pub struct RefsView {
    pub logs: Map<Seq<char>, Seq<RefView>>,
    pub turns: Map<Seq<char>, Seq<char>>,
    pub restores: Map<Seq<char>, Seq<RecordView>>,
}

impl View for RefStore {
    type V = RefsView;

    closed spec fn view(&self) -> RefsView {
        RefsView { logs: self.logs@, turns: self.turns@, restores: self.restores@ }
    }
}

/// The captures of a thread; none where it has no log.
pub open spec fn log_of(refs: RefsView, thread: Seq<char>) -> Seq<RefView> {
    if refs.logs.contains_key(record_text(thread)) {
        refs.logs[record_text(thread)]
    } else {
        Seq::empty()
    }
}

/// The records once a thread's captures have been replaced.
pub open spec fn with_log(refs: RefsView, thread: Seq<char>, log: Seq<RefView>) -> RefsView {
    RefsView { logs: refs.logs.insert(record_text(thread), log), ..refs }
}

/// The records once a thread has been given a log, if it had none.
pub open spec fn ensured(refs: RefsView, thread: Seq<char>) -> RefsView {
    with_log(refs, thread, log_of(refs, thread))
}

/// The records once a capture has been appended to a thread's log.
pub open spec fn appended(refs: RefsView, thread: Seq<char>, entry: RefView) -> RefsView {
    with_log(refs, thread, log_of(refs, thread).push(entry))
}

/// The records once the turn index has been told of a turn.
pub open spec fn with_turn(refs: RefsView, turn: Seq<char>, manifest: Seq<char>) -> RefsView {
    RefsView { turns: refs.turns.insert(record_text(turn), manifest), ..refs }
}

/// The restores of a destination that can be undone.
pub open spec fn restores_of(refs: RefsView, key: Seq<char>) -> Seq<RecordView> {
    if refs.restores.contains_key(record_text(key)) {
        refs.restores[record_text(key)]
    } else {
        Seq::empty()
    }
}

/// The latest of a run of restore records, as many as are kept.
pub open spec fn capped(records: Seq<RecordView>) -> Seq<RecordView> {
    if records.len() <= MAX_RESTORES {
        records
    } else {
        records.skip(records.len() - MAX_RESTORES)
    }
}

/// The records once a destination's restores have been replaced.
pub open spec fn with_restores(
    refs: RefsView,
    key: Seq<char>,
    records: Seq<RecordView>,
) -> RefsView {
    RefsView { restores: refs.restores.insert(record_text(key), records), ..refs }
}

/// The records once a restore has been filed.
pub open spec fn pushed(refs: RefsView, key: Seq<char>, record: RecordView) -> RefsView {
    with_restores(refs, key, capped(restores_of(refs, key).push(record)))
}

/// The records once the latest restore has been spent.
pub open spec fn popped(refs: RefsView, key: Seq<char>) -> RefsView {
    if restores_of(refs, key).len() == 0 {
        refs
    } else {
        with_restores(refs, key, restores_of(refs, key).drop_last())
    }
}

impl RefStore {
    /// The directory of the thread logs.
    pub closed spec fn root(self) -> Seq<char> {
        self.root@
    }

    /// A store at `root` with nothing at hand yet.
    pub fn open(root: String) -> (r: Self)
        ensures
            r@.logs == Map::<Seq<char>, Seq<RefView>>::empty(),
            r@.turns == Map::<Seq<char>, Seq<char>>::empty(),
            r@.restores == Map::<Seq<char>, Seq<RecordView>>::empty(),
            r.root() == root@,
    {
        RefStore { root, logs: Table::new(), turns: Table::new(), restores: Table::new() }
    }

    /// Puts at hand the log that was read from the record `name`.
    pub fn supply_log(&mut self, name: String, log: ThreadLog)
        ensures
            final(self)@.logs == old(self)@.logs.insert(name@, log@),
            final(self)@.turns == old(self)@.turns,
            final(self)@.restores == old(self)@.restores,
            final(self).root() == old(self).root(),
    {
        self.logs.insert(name, log);
    }

    /// Puts at hand the turn that was read from the record `name`.
    pub fn supply_turn(&mut self, name: String, manifest_id: String)
        ensures
            final(self)@.turns == old(self)@.turns.insert(name@, manifest_id@),
            final(self)@.logs == old(self)@.logs,
            final(self)@.restores == old(self)@.restores,
            final(self).root() == old(self).root(),
    {
        self.turns.insert(name, manifest_id);
    }

    /// Puts at hand the restores that were read from the record `name`.
    pub fn supply_restores(&mut self, name: String, log: RestoreLog)
        ensures
            final(self)@.restores == old(self)@.restores.insert(name@, log@),
            final(self)@.logs == old(self)@.logs,
            final(self)@.turns == old(self)@.turns,
            final(self).root() == old(self).root(),
    {
        self.restores.insert(name, log);
    }

    /// Appends a capture to a thread's log.
    pub fn append(&mut self, thread_id: &str, entry: SnapshotRef)
        ensures
            final(self)@ == appended(old(self)@, thread_id@, entry@),
            final(self).root() == old(self).root(),
    {
        let mut log = self.load(thread_id);
        let ghost was = log@;
        log.entries.push(entry);
        assert(log@ =~= was.push(entry@));
        self.logs.insert(record_name(thread_id), log);
    }

    /// A thread's log; a thread without captures yields an empty one.
    pub fn load(&self, thread_id: &str) -> (r: ThreadLog)
        ensures
            r@ == log_of(self@, thread_id@),
    {
        match self.logs.get(record_name(thread_id).as_str()) {
            Some(log) => log.duplicate(),
            None => {
                let r = ThreadLog { entries: Vec::new() };
                assert(r@ =~= Seq::<RefView>::empty());
                r
            },
        }
    }

    /// Drops a thread's log; its captures are garbage unless something else
    /// points at them.
    pub fn remove(&mut self, thread_id: &str)
        ensures
            final(self)@.logs == old(self)@.logs.remove(record_text(thread_id@)),
            final(self)@.turns == old(self)@.turns,
            final(self)@.restores == old(self)@.restores,
            final(self).root() == old(self).root(),
    {
        self.logs.remove(record_name(thread_id).as_str());
    }

    /// Whether a thread has a log.
    pub fn has_log(&self, thread_id: &str) -> (r: bool)
        ensures
            r == self@.logs.contains_key(record_text(thread_id@)),
    {
        self.logs.contains_key(record_name(thread_id).as_str())
    }

    /// Gives a thread an empty log, if it has none.
    pub fn ensure(&mut self, thread_id: &str)
        ensures
            final(self)@ == ensured(old(self)@, thread_id@),
            final(self).root() == old(self).root(),
    {
        let log = self.load(thread_id);
        self.logs.insert(record_name(thread_id), log);
    }

    /// Every log, in the order of the records' names.
    pub fn thread_logs(&self) -> (r: Vec<ThreadLog>)
        ensures
            r@.len() == sorted(self@.logs.dom()).len(),
            forall|i: int|
                0 <= i < r@.len() ==> (#[trigger] r@[i])@ == self@.logs[sorted(
                    self@.logs.dom(),
                )[i]],
    {
        let n = self.logs.len();
        let mut out: Vec<ThreadLog> = Vec::new();
        proof {
            lists_sorted(self.logs.order(), self.logs@.dom());
        }
        for i in 0..n
            invariant
                n == self.logs.order().len(),
                out@.len() == i,
                forall|j: int|
                    0 <= j < i ==> (#[trigger] out@[j])@ == self.logs@[self.logs.order()[j]],
        {
            out.push(self.logs.value_at(i).duplicate());
        }
        out
    }

    /// Where a thread's log lives.
    pub fn log_path(&self, thread_id: &str) -> (r: String)
        ensures
            r@ == join_text(self.root(), record_text(thread_id@) + ".json"@),
    {
        let mut name = record_name(thread_id);
        name.append(".json");
        join(self.root.as_str(), name.as_str())
    }

    /// Tells the turn index what the files looked like at the start of a turn.
    pub fn note_turn(&mut self, turn_id: &str, manifest_id: String)
        ensures
            final(self)@ == with_turn(old(self)@, turn_id@, manifest_id@),
            final(self).root() == old(self).root(),
    {
        self.turns.insert(record_name(turn_id), manifest_id);
    }

    /// The manifest that the turn index holds for a turn.
    pub fn turn(&self, turn_id: &str) -> (r: Option<String>)
        ensures
            r is Some <==> self@.turns.contains_key(record_text(turn_id@)),
            r matches Some(id) ==> id@ == self@.turns[record_text(turn_id@)],
    {
        match self.turns.get(record_name(turn_id).as_str()) {
            Some(id) => Some(id.clone()),
            None => None,
        }
    }

    /// The restores of a destination that can be undone.
    pub fn restore_log(&self, key: &str) -> (r: RestoreLog)
        ensures
            r@ == restores_of(self@, key@),
    {
        match self.restores.get(record_name(key).as_str()) {
            Some(log) => log.duplicate(),
            None => {
                let r = RestoreLog { records: Vec::new() };
                assert(r@ =~= Seq::<RecordView>::empty());
                r
            },
        }
    }

    /// Files a restore, and lets the oldest go where there are too many.
    pub fn push_restore(&mut self, key: &str, record: RestoreRecord)
        ensures
            final(self)@ == pushed(old(self)@, key@, record@),
            final(self).root() == old(self).root(),
    {
        let mut log = self.restore_log(key);
        let ghost was = log@;
        log.records.push(record);
        let ghost all = log@;
        assert(all =~= was.push(record@));
        assert(all.skip(0) =~= all);
        while log.records.len() > MAX_RESTORES
            invariant
                log@.len() <= all.len(),
                log@ == all.skip(all.len() - log@.len()),
                all.len() > MAX_RESTORES ==> log@.len() >= MAX_RESTORES,
                all.len() <= MAX_RESTORES ==> log@ == all,
            decreases log.records@.len(),
        {
            let ghost before = log@;
            log.records.remove(0);
            assert(log@ =~= before.skip(1));
            assert(log@ =~= all.skip(all.len() - log@.len()));
        }
        assert(log@ =~= capped(all));
        self.restores.insert(record_name(key), log);
    }

    /// The restore that an undo would reverse.
    pub fn last_restore(&self, key: &str) -> (r: Option<RestoreRecord>)
        ensures
            r is Some <==> restores_of(self@, key@).len() > 0,
            r matches Some(record) ==> record@ == restores_of(self@, key@).last(),
    {
        let log = self.restore_log(key);
        let ghost all = log@;
        let n = log.records.len();
        if n == 0 {
            return None;
        }
        let last = log.records[n - 1].duplicate();
        assert(last@ == all[n - 1]);
        Some(last)
    }

    /// Spends the latest restore.
    pub fn pop_restore(&mut self, key: &str)
        ensures
            final(self)@ == popped(old(self)@, key@),
            final(self).root() == old(self).root(),
    {
        let mut log = self.restore_log(key);
        let ghost all = log@;
        if log.records.len() > 0 {
            log.records.pop();
            assert(log@ =~= all.drop_last());
            self.restores.insert(record_name(key), log);
        }
    }
}

/// Some capture of the log has this manifest.
pub open spec fn logs_manifest(log: Seq<RefView>, id: Seq<char>) -> bool {
    exists|i: int| 0 <= i < log.len() && (#[trigger] log[i]).manifest_id == id
}

/// Some capture of the log is of a turn with this record.
pub open spec fn logs_turn(log: Seq<RefView>, turn: Seq<char>) -> bool {
    exists|i: int| 0 <= i < log.len() && record_text((#[trigger] log[i]).turn_id) == turn
}

/// Some restore record goes from or to this manifest.
pub open spec fn records_manifest(records: Seq<RecordView>, id: Seq<char>) -> bool {
    exists|i: int|
        0 <= i < records.len() && ((#[trigger] records[i]).target == id || records[i].safety == id)
}

/// Some thread still holds the turn with this record.
pub open spec fn held(refs: RefsView, turn: Seq<char>) -> bool {
    exists|t: Seq<char>| #[trigger] refs.logs.contains_key(t) && logs_turn(refs.logs[t], turn)
}

/// Something points at the manifest: a thread's log, the turn index by way of
/// a turn that some thread still holds, or a restore that can be undone.
pub open spec fn pointed_at(refs: RefsView, id: Seq<char>) -> bool {
    ||| exists|t: Seq<char>| #[trigger] refs.logs.contains_key(t) && logs_manifest(refs.logs[t], id)
    ||| exists|t: Seq<char>| #[trigger]
        refs.turns.contains_key(t) && refs.turns[t] == id && held(refs, t)
    ||| exists|k: Seq<char>| #[trigger]
        refs.restores.contains_key(k) && records_manifest(refs.restores[k], id)
}

/// The records with the turn index cut down to the turns that some thread
/// still holds.
pub open spec fn pruned(refs: RefsView) -> RefsView {
    RefsView {
        turns: Map::new(
            |t: Seq<char>| refs.turns.contains_key(t) && held(refs, t),
            |t: Seq<char>| refs.turns[t],
        ),
        ..refs
    }
}

/// Adds the manifests of a log.
fn add_manifests(out: &mut NameSet, log: &ThreadLog)
    ensures
        forall|id: Seq<char>| #[trigger]
            final(out)@.contains(id) <==> old(out)@.contains(id) || logs_manifest(log@, id),
{
    let ghost start = out@;
    for i in 0..log.entries.len()
        invariant
            forall|id: Seq<char>| #[trigger]
                out@.contains(id) <==> start.contains(id) || logs_manifest(
                    log@.take(i as int),
                    id,
                ),
    {
        let ghost was = out@;
        let ghost front = log@.take(i as int);
        let ghost next = log@.take(i + 1);
        out.insert(log.entries[i].manifest_id.clone());
        assert forall|id: Seq<char>| #[trigger] out@.contains(id) <==> start.contains(id)
            || logs_manifest(next, id) by {
            assert(out@.contains(id) <==> was.contains(id) || id == log@[i as int].manifest_id);
            assert(next[i as int] == log@[i as int]);
            if logs_manifest(front, id) {
                let j = choose|j: int|
                    0 <= j < front.len() && (#[trigger] front[j]).manifest_id == id;
                assert(next[j] == front[j]);
            }
            if logs_manifest(next, id) {
                let j = choose|j: int| 0 <= j < next.len() && (#[trigger] next[j]).manifest_id == id;
                assert(j < i ==> front[j] == next[j]);
            }
        }
    }
    assert(log@.take(log@.len() as int) =~= log@);
}

/// Adds the turns of a log.
fn add_turns(out: &mut NameSet, log: &ThreadLog)
    ensures
        forall|t: Seq<char>| #[trigger]
            final(out)@.contains(t) <==> old(out)@.contains(t) || logs_turn(log@, t),
{
    let ghost start = out@;
    for i in 0..log.entries.len()
        invariant
            forall|t: Seq<char>| #[trigger]
                out@.contains(t) <==> start.contains(t) || logs_turn(log@.take(i as int), t),
    {
        let ghost was = out@;
        let ghost front = log@.take(i as int);
        let ghost next = log@.take(i + 1);
        out.insert(record_name(log.entries[i].turn_id.as_str()));
        assert forall|t: Seq<char>| #[trigger] out@.contains(t) <==> start.contains(t) || logs_turn(
            next,
            t,
        ) by {
            assert(out@.contains(t) <==> was.contains(t) || t == record_text(
                log@[i as int].turn_id,
            ));
            assert(next[i as int] == log@[i as int]);
            if logs_turn(front, t) {
                let j = choose|j: int|
                    0 <= j < front.len() && record_text((#[trigger] front[j]).turn_id) == t;
                assert(next[j] == front[j]);
            }
            if logs_turn(next, t) {
                let j = choose|j: int|
                    0 <= j < next.len() && record_text((#[trigger] next[j]).turn_id) == t;
                assert(j < i ==> front[j] == next[j]);
            }
        }
    }
    assert(log@.take(log@.len() as int) =~= log@);
}

/// Adds the manifests of a run of restore records.
fn add_restored(out: &mut NameSet, log: &RestoreLog)
    ensures
        forall|id: Seq<char>| #[trigger]
            final(out)@.contains(id) <==> old(out)@.contains(id) || records_manifest(log@, id),
{
    let ghost start = out@;
    for i in 0..log.records.len()
        invariant
            forall|id: Seq<char>| #[trigger]
                out@.contains(id) <==> start.contains(id) || records_manifest(
                    log@.take(i as int),
                    id,
                ),
    {
        let ghost was = out@;
        let ghost front = log@.take(i as int);
        let ghost next = log@.take(i + 1);
        out.insert(log.records[i].target.clone());
        out.insert(log.records[i].safety.clone());
        assert forall|id: Seq<char>| #[trigger] out@.contains(id) <==> start.contains(id)
            || records_manifest(next, id) by {
            let now = log@[i as int];
            assert(out@.contains(id) <==> was.contains(id) || id == now.target || id
                == now.safety);
            assert(next[i as int] == now);
            if records_manifest(front, id) {
                let j = choose|j: int|
                    0 <= j < front.len() && ((#[trigger] front[j]).target == id
                        || front[j].safety == id);
                assert(next[j] == front[j]);
            }
            if records_manifest(next, id) {
                let j = choose|j: int|
                    0 <= j < next.len() && ((#[trigger] next[j]).target == id || next[j].safety
                        == id);
                assert(j < i ==> front[j] == next[j]);
            }
        }
    }
    assert(log@.take(log@.len() as int) =~= log@);
}

impl RefStore {
    /// The turns that some thread still holds.
    fn held_turns(&self) -> (r: NameSet)
        ensures
            forall|t: Seq<char>| #[trigger] r@.contains(t) <==> held(self@, t),
    {
        let n = self.logs.len();
        let ghost names = self.logs.order();
        let mut out = NameSet::new();
        for i in 0..n
            invariant
                n == names.len(),
                names == self.logs.order(),
                forall|t: Seq<char>| #[trigger]
                    out@.contains(t) <==> exists|j: int|
                        0 <= j < i && logs_turn(self.logs@[#[trigger] names[j]], t),
        {
            let ghost was = out@;
            add_turns(&mut out, self.logs.value_at(i));
            assert forall|t: Seq<char>| #[trigger] out@.contains(t) <==> exists|j: int|
                0 <= j < i + 1 && logs_turn(self.logs@[#[trigger] names[j]], t) by {
                assert(out@.contains(t) <==> was.contains(t) || logs_turn(
                    self.logs@[names[i as int]],
                    t,
                ));
            }
        }
        proof {
            assert forall|t: Seq<char>| #[trigger] out@.contains(t) <==> held(self@, t) by {
                if held(self@, t) {
                    let k = choose|k: Seq<char>| #[trigger]
                        self@.logs.contains_key(k) && logs_turn(self@.logs[k], t);
                    assert(self.logs@.dom().contains(k));
                    let j = names.index_of(k);
                    assert(names[j] == k);
                }
                if out@.contains(t) {
                    let j = choose|j: int|
                        0 <= j < n && logs_turn(self.logs@[#[trigger] names[j]], t);
                    assert(names.contains(names[j]));
                    assert(self@.logs.contains_key(names[j]));
                }
            }
        }
        out
    }

    /// Every manifest that something points at.
    pub fn live_manifests(&self) -> (r: NameSet)
        ensures
            forall|id: Seq<char>| #[trigger] r@.contains(id) <==> pointed_at(self@, id),
    {
        let mut out = NameSet::new();
        let n = self.logs.len();
        let ghost names = self.logs.order();
        for i in 0..n
            invariant
                n == names.len(),
                names == self.logs.order(),
                forall|id: Seq<char>| #[trigger]
                    out@.contains(id) <==> exists|j: int|
                        0 <= j < i && logs_manifest(self.logs@[#[trigger] names[j]], id),
        {
            let ghost was = out@;
            add_manifests(&mut out, self.logs.value_at(i));
            assert forall|id: Seq<char>| #[trigger] out@.contains(id) <==> exists|j: int|
                0 <= j < i + 1 && logs_manifest(self.logs@[#[trigger] names[j]], id) by {
                assert(out@.contains(id) <==> was.contains(id) || logs_manifest(
                    self.logs@[names[i as int]],
                    id,
                ));
            }
        }
        let ghost from_logs = out@;
        let turns = self.held_turns();
        let m = self.turns.len();
        let ghost indexed = self.turns.order();
        for i in 0..m
            invariant
                m == indexed.len(),
                indexed == self.turns.order(),
                forall|t: Seq<char>| #[trigger] turns@.contains(t) <==> held(self@, t),
                forall|id: Seq<char>| #[trigger]
                    out@.contains(id) <==> from_logs.contains(id) || exists|j: int|
                        0 <= j < i && self.turns@[#[trigger] indexed[j]] == id && held(
                            self@,
                            indexed[j],
                        ),
        {
            let ghost was = out@;
            if turns.contains(self.turns.key_at(i).as_str()) {
                out.insert(self.turns.value_at(i).clone());
            }
            assert forall|id: Seq<char>| #[trigger] out@.contains(id) <==> from_logs.contains(id)
                || exists|j: int|
                0 <= j < i + 1 && self.turns@[#[trigger] indexed[j]] == id && held(
                    self@,
                    indexed[j],
                ) by {
                let t0 = indexed[i as int];
                assert(out@.contains(id) <==> was.contains(id) || (held(self@, t0)
                    && self.turns@[t0] == id));
            }
        }
        let ghost from_turns = out@;
        let q = self.restores.len();
        let ghost keys = self.restores.order();
        for i in 0..q
            invariant
                q == keys.len(),
                keys == self.restores.order(),
                forall|id: Seq<char>| #[trigger]
                    out@.contains(id) <==> from_turns.contains(id) || exists|j: int|
                        0 <= j < i && records_manifest(self.restores@[#[trigger] keys[j]], id),
        {
            let ghost was = out@;
            add_restored(&mut out, self.restores.value_at(i));
            assert forall|id: Seq<char>| #[trigger] out@.contains(id) <==> from_turns.contains(id)
                || exists|j: int|
                0 <= j < i + 1 && records_manifest(self.restores@[#[trigger] keys[j]], id) by {
                assert(out@.contains(id) <==> was.contains(id) || records_manifest(
                    self.restores@[keys[i as int]],
                    id,
                ));
            }
        }
        proof {
            assert forall|id: Seq<char>| #[trigger] out@.contains(id) <==> pointed_at(self@, id) by {
                if from_logs.contains(id) {
                    let j = choose|j: int|
                        0 <= j < n && logs_manifest(self.logs@[#[trigger] names[j]], id);
                    assert(names.contains(names[j]));
                    assert(self@.logs.contains_key(names[j]));
                } else if from_turns.contains(id) {
                    let j = choose|j: int|
                        0 <= j < m && self.turns@[#[trigger] indexed[j]] == id && held(
                            self@,
                            indexed[j],
                        );
                    assert(indexed.contains(indexed[j]));
                    assert(self@.turns.contains_key(indexed[j]));
                } else if out@.contains(id) {
                    let j = choose|j: int|
                        0 <= j < q && records_manifest(self.restores@[#[trigger] keys[j]], id);
                    assert(keys.contains(keys[j]));
                    assert(self@.restores.contains_key(keys[j]));
                }
                if exists|t: Seq<char>| #[trigger]
                    self@.logs.contains_key(t) && logs_manifest(self@.logs[t], id) {
                    let t = choose|t: Seq<char>| #[trigger]
                        self@.logs.contains_key(t) && logs_manifest(self@.logs[t], id);
                    assert(self.logs@.dom().contains(t));
                    let j = names.index_of(t);
                    assert(names[j] == t);
                }
                if exists|t: Seq<char>| #[trigger]
                    self@.turns.contains_key(t) && self@.turns[t] == id && held(self@, t) {
                    let t = choose|t: Seq<char>| #[trigger]
                        self@.turns.contains_key(t) && self@.turns[t] == id && held(self@, t);
                    assert(self.turns@.dom().contains(t));
                    let j = indexed.index_of(t);
                    assert(indexed[j] == t);
                }
                if exists|k: Seq<char>| #[trigger]
                    self@.restores.contains_key(k) && records_manifest(self@.restores[k], id) {
                    let k = choose|k: Seq<char>| #[trigger]
                        self@.restores.contains_key(k) && records_manifest(self@.restores[k], id);
                    assert(self.restores@.dom().contains(k));
                    let j = keys.index_of(k);
                    assert(keys[j] == k);
                }
            }
        }
        out
    }

    /// Cuts the turn index down to the turns that some thread still holds.
    pub fn prune_turns(&mut self)
        ensures
            final(self)@ == pruned(old(self)@),
            final(self).root() == old(self).root(),
    {
        let held_now = self.held_turns();
        let n = self.turns.len();
        let ghost names = self.turns.order();
        let mut turns: Table<String> = Table::new();
        for i in 0..n
            invariant
                n == names.len(),
                names == self.turns.order(),
                forall|t: Seq<char>| #[trigger] held_now@.contains(t) <==> held(self@, t),
                forall|t: Seq<char>| #[trigger]
                    turns@.contains_key(t) <==> names.take(i as int).contains(t) && held(self@, t),
                forall|t: Seq<char>| #[trigger]
                    turns@.contains_key(t) ==> turns@[t] == self.turns@[t],
        {
            let ghost was = turns@;
            let ghost front = names.take(i as int);
            let ghost name = names[i as int];
            assert(names.take(i + 1) =~= front.push(name));
            let key = self.turns.key_at(i);
            if held_now.contains(key.as_str()) {
                turns.insert(key.clone(), self.turns.value_at(i).clone());
            }
            assert forall|t: Seq<char>| #[trigger] turns@.contains_key(t) <==> front.push(
                name,
            ).contains(t) && held(self@, t) by {
                vstd::seq_lib::lemma_seq_contains_after_push(front, name, t);
                assert(turns@.contains_key(t) <==> was.contains_key(t) || (t == name && held(
                    self@,
                    name,
                )));
            }
        }
        proof {
            assert(names.take(n as int) =~= names);
            assert forall|t: Seq<char>| #[trigger] turns@.contains_key(t) <==> pruned(
                self@,
            ).turns.contains_key(t) by {
                assert(self.turns@.dom().contains(t) <==> names.contains(t));
            }
            assert(turns@ =~= pruned(self@).turns);
        }
        self.turns = turns;
    }
}

/// The records once a run of restores has been filed.
pub open spec fn pushed_all(refs: RefsView, key: Seq<char>, records: Seq<RecordView>) -> RefsView
    decreases records.len(),
{
    if records.len() == 0 {
        refs
    } else {
        pushed(pushed_all(refs, key, records.drop_last()), key, records.last())
    }
}

/// The records once `n` restores have been spent.
pub open spec fn popped_times(refs: RefsView, key: Seq<char>, n: nat) -> RefsView
    decreases n,
{
    if n == 0 {
        refs
    } else {
        popped(popped_times(refs, key, (n - 1) as nat), key)
    }
}

/// N undos retrace N rewinds, the latest first: after a run of restores has
/// been filed and `n` of them spent, what can be undone is what could be undone
/// before, and the restores that are left, for as long as no more are filed
/// than are kept.
pub proof fn undos_retrace_rewinds(
    refs: RefsView,
    key: Seq<char>,
    records: Seq<RecordView>,
    n: nat,
)
    requires
        restores_of(refs, key).len() + records.len() <= MAX_RESTORES,
        n <= records.len(),
    ensures
        ({
            let all = restores_of(refs, key) + records;
            restores_of(popped_times(pushed_all(refs, key, records), key, n), key) == all.take(
                all.len() - n,
            )
        }),
    decreases records.len(), n,
{
    let all = restores_of(refs, key) + records;
    if n > 0 {
        undos_retrace_rewinds(refs, key, records, (n - 1) as nat);
        assert(all.take(all.len() - (n - 1)).drop_last() =~= all.take(all.len() - n));
    } else if records.len() > 0 {
        let front = records.drop_last();
        undos_retrace_rewinds(refs, key, front, 0);
        let before = restores_of(refs, key) + front;
        assert(before.take(before.len() as int) =~= before);
        assert(before.push(records.last()) =~= all);
        assert(all.take(all.len() as int) =~= all);
    } else {
        assert(all.take(all.len() as int) =~= restores_of(refs, key));
    }
}

/// Where more restores are filed than are kept, the latest ones are.
pub proof fn the_latest_restores_are_kept(refs: RefsView, key: Seq<char>, record: RecordView)
    ensures
        ({
            let after = restores_of(pushed(refs, key, record), key);
            &&& after.last() == record
            &&& after.len() <= MAX_RESTORES
            &&& restores_of(refs, key).push(record).skip(
                restores_of(refs, key).len() + 1 - after.len(),
            ) == after
        }),
{
    let all = restores_of(refs, key).push(record);
    assert(all.skip(0) =~= all);
}

/// Restores of one destination never touch those of another.
pub proof fn destinations_are_private(
    refs: RefsView,
    key: Seq<char>,
    other: Seq<char>,
    record: RecordView,
)
    requires
        record_text(key) != record_text(other),
    ensures
        restores_of(pushed(refs, key, record), other) == restores_of(refs, other),
        restores_of(popped(refs, key), other) == restores_of(refs, other),
{
}

/// A character that is kept in the name of a record: a letter or a digit of
/// ASCII, a hyphen, an underscore or a dot.
pub open spec fn is_kept(c: char) -> bool {
    ('a' <= c <= 'z') || ('A' <= c <= 'Z') || ('0' <= c <= '9') || c == '-' || c == '_' || c == '.'
}

/// The name of a record holds nothing but characters that every file system
/// takes. An id that is made of these is its own name, so that no two such ids
/// share a record.
pub proof fn ids_are_told_apart_by_their_records(id: Seq<char>, other: Seq<char>)
    ensures
        record_text(id).len() == id.len(),
        forall|i: int| 0 <= i < id.len() ==> is_kept(#[trigger] record_text(id)[i]),
        forall|i: int|
            0 <= i < id.len() && is_kept(id[i]) ==> #[trigger] record_text(id)[i] == id[i],
        forall|i: int|
            0 <= i < id.len() && !is_kept(id[i]) ==> #[trigger] record_text(id)[i] == '_',
        (forall|i: int| 0 <= i < id.len() ==> is_kept(#[trigger] id[i])) && (forall|i: int|
            0 <= i < other.len() ==> is_kept(#[trigger] other[i])) ==> (record_text(id)
            == record_text(other) <==> id == other),
{
    if (forall|i: int| 0 <= i < id.len() ==> is_kept(#[trigger] id[i])) && (forall|i: int|
        0 <= i < other.len() ==> is_kept(#[trigger] other[i])) {
        assert(record_text(id) =~= id) by {
            assert forall|i: int| 0 <= i < id.len() implies record_text(id)[i] == id[i] by {
                assert(is_kept(id[i]));
            }
        }
        assert(record_text(other) =~= other) by {
            assert forall|i: int| 0 <= i < other.len() implies record_text(other)[i]
                == other[i] by {
                assert(is_kept(other[i]));
            }
        }
    }
}

/// What is appended to a thread's log is its last capture, behind those before
/// it. No other thread's log changes, no turn and no restore.
pub proof fn an_append_adds_one_capture(
    refs: RefsView,
    thread: Seq<char>,
    entry: RefView,
    other: Seq<char>,
)
    ensures
        ({
            let after = appended(refs, thread, entry);
            &&& log_of(after, thread) == log_of(refs, thread).push(entry)
            &&& after.logs.contains_key(record_text(thread))
            &&& record_text(other) != record_text(thread) ==> log_of(after, other) == log_of(
                refs,
                other,
            ) && after.logs.contains_key(record_text(other)) == refs.logs.contains_key(
                record_text(other),
            )
            &&& after.turns == refs.turns
            &&& after.restores == refs.restores
        }),
{
}

/// Giving a thread a log changes nothing but that it has one, and a thread
/// without a log has no captures.
pub proof fn a_thread_is_given_an_empty_log(
    refs: RefsView,
    thread: Seq<char>,
    other: Seq<char>,
)
    ensures
        ensured(refs, thread).logs.contains_key(record_text(thread)),
        log_of(ensured(refs, thread), other) == log_of(refs, other),
        !refs.logs.contains_key(record_text(thread)) ==> log_of(refs, thread).len() == 0,
        refs.logs.contains_key(record_text(thread)) ==> log_of(refs, thread)
            == refs.logs[record_text(thread)],
        ensured(refs, thread).turns == refs.turns,
        ensured(refs, thread).restores == refs.restores,
{
}

/// The turn index gives back what it was told of a turn, and of every other
/// turn what it was told before.
pub proof fn the_turn_index_gives_back_what_it_was_told(
    refs: RefsView,
    turn: Seq<char>,
    id: Seq<char>,
    other: Seq<char>,
)
    ensures
        ({
            let after = with_turn(refs, turn, id);
            &&& after.turns.contains_key(record_text(turn))
            &&& after.turns[record_text(turn)] == id
            &&& record_text(other) != record_text(turn) ==> (after.turns.contains_key(
                record_text(other),
            ) == refs.turns.contains_key(record_text(other)) && (refs.turns.contains_key(
                record_text(other),
            ) ==> after.turns[record_text(other)] == refs.turns[record_text(other)]))
            &&& after.logs == refs.logs
            &&& after.restores == refs.restores
        }),
{
}

/// Twenty restores of a destination are kept: all of them up to twenty, and
/// then the latest twenty, in the order in which they were filed.
pub proof fn twenty_restores_are_kept(refs: RefsView, key: Seq<char>, record: RecordView)
    ensures
        ({
            let before = restores_of(refs, key);
            let after = restores_of(pushed(refs, key, record), key);
            &&& before.len() < 20 ==> after == before.push(record)
            &&& before.len() >= 20 ==> after.len() == 20 && after == before.push(record).skip(
                before.len() - 19,
            )
            &&& pushed(refs, key, record).logs == refs.logs
            &&& pushed(refs, key, record).turns == refs.turns
        }),
{
}

/// Spending a restore takes the latest off and leaves the others; where there
/// is none nothing changes.
pub proof fn the_latest_restore_is_spent(refs: RefsView, key: Seq<char>)
    ensures
        ({
            let before = restores_of(refs, key);
            let after = popped(refs, key);
            &&& before.len() > 0 ==> restores_of(after, key) == before.drop_last()
            &&& before.len() == 0 ==> after == refs
            &&& after.logs == refs.logs
            &&& after.turns == refs.turns
        }),
{
}

/// A manifest is pointed at by every capture of every thread, by the index of
/// every turn that some thread has a capture of, and by both ends of every
/// restore that can be undone; and by nothing else.
pub proof fn captures_turns_and_restores_point_at_manifests(
    refs: RefsView,
    id: Seq<char>,
    t: Seq<char>,
    i: int,
)
    ensures
        refs.logs.contains_key(t) && 0 <= i < refs.logs[t].len() && refs.logs[t][i].manifest_id
            == id ==> pointed_at(refs, id),
        refs.logs.contains_key(t) && 0 <= i < refs.logs[t].len() && refs.turns.contains_key(
            record_text(refs.logs[t][i].turn_id),
        ) && refs.turns[record_text(refs.logs[t][i].turn_id)] == id ==> pointed_at(refs, id),
        refs.restores.contains_key(t) && 0 <= i < refs.restores[t].len() && (
        refs.restores[t][i].target == id || refs.restores[t][i].safety == id) ==> pointed_at(
            refs,
            id,
        ),
        (forall|k: Seq<char>, j: int|
            refs.logs.contains_key(k) && 0 <= j < refs.logs[k].len() ==> (
            #[trigger] refs.logs[k][j]).manifest_id != id) && (forall|k: Seq<char>| #[trigger]
            refs.turns.contains_key(k) ==> refs.turns[k] != id) && (forall|k: Seq<char>, j: int|
            refs.restores.contains_key(k) && 0 <= j < refs.restores[k].len() ==> (
            #[trigger] refs.restores[k][j]).target != id && refs.restores[k][j].safety != id)
            ==> !pointed_at(refs, id),
{
    if refs.logs.contains_key(t) && 0 <= i < refs.logs[t].len() {
        if refs.logs[t][i].manifest_id == id {
            assert(logs_manifest(refs.logs[t], id));
        }
        let turn = record_text(refs.logs[t][i].turn_id);
        assert(logs_turn(refs.logs[t], turn));
        assert(held(refs, turn));
    }
    if refs.restores.contains_key(t) && 0 <= i < refs.restores[t].len() && (
    refs.restores[t][i].target == id || refs.restores[t][i].safety == id) {
        assert(records_manifest(refs.restores[t], id));
    }
}

/// Pruning keeps the index of every turn that some thread has a capture of, as
/// it was, lets every other go, and touches nothing else.
pub proof fn pruning_keeps_the_turns_of_threads(
    refs: RefsView,
    turn: Seq<char>,
    t: Seq<char>,
    i: int,
)
    ensures
        refs.logs.contains_key(t) && 0 <= i < refs.logs[t].len() && record_text(
            refs.logs[t][i].turn_id,
        ) == turn && refs.turns.contains_key(turn) ==> pruned(refs).turns.contains_key(turn),
        pruned(refs).turns.contains_key(turn) ==> refs.turns.contains_key(turn)
            && pruned(refs).turns[turn] == refs.turns[turn] && exists|k: Seq<char>, j: int|
            refs.logs.contains_key(k) && 0 <= j < refs.logs[k].len() && record_text(
                (#[trigger] refs.logs[k][j]).turn_id,
            ) == turn,
        pruned(refs).logs == refs.logs,
        pruned(refs).restores == refs.restores,
{
    if refs.logs.contains_key(t) && 0 <= i < refs.logs[t].len() && record_text(
        refs.logs[t][i].turn_id,
    ) == turn {
        assert(logs_turn(refs.logs[t], turn));
        assert(held(refs, turn));
    }
    if pruned(refs).turns.contains_key(turn) {
        let k = choose|k: Seq<char>| #[trigger]
            refs.logs.contains_key(k) && logs_turn(refs.logs[k], turn);
        let j = choose|j: int|
            0 <= j < refs.logs[k].len() && record_text((#[trigger] refs.logs[k][j]).turn_id)
                == turn;
        assert(record_text(refs.logs[k][j].turn_id) == turn);
    }
}

/// Records stand for all that they hold.
pub proof fn records_stand_for_what_they_hold(log: ThreadLog, restores: RestoreLog, i: int)
    ensures
        log@.len() == log.entries@.len(),
        0 <= i < log.entries@.len() ==> log@[i].turn_id == log.entries@[i].turn_id@
            && log@[i].manifest_id == log.entries@[i].manifest_id@,
        restores@.len() == restores.records@.len(),
        0 <= i < restores.records@.len() ==> restores@[i].target == restores.records@[i].target@
            && restores@[i].safety == restores.records@[i].safety@,
{
}

} // verus!
