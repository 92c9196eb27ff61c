//! The registry of a session's active monitors.

use tokio::task::JoinHandle;
use tokio_util::task::AbortOnDropHandle;
use vstd::prelude::*;

verus! {

/// `tokio::task::JoinHandle`: the handle of a spawned task. Nothing inside it is
/// visible here.
#[verifier::external_type_specification]
#[verifier::external_body]
#[verifier::reject_recursive_types(T)]
pub struct ExJoinHandle<T>(tokio::task::JoinHandle<T>);

/// `tokio_util::task::AbortOnDropHandle`: a task's handle that aborts the task
/// when it is dropped. Nothing inside it is visible here.
#[verifier::external_type_specification]
#[verifier::external_body]
#[verifier::reject_recursive_types(T)]
pub struct ExAbortOnDropHandle<T>(tokio_util::task::AbortOnDropHandle<T>);

/// `tokio::task::JoinError`: what awaiting either handle can fail with. It is
/// only carried in their types.
#[verifier::external_type_specification]
#[verifier::external_body]
pub struct ExJoinError(tokio::task::JoinError);

/// The guard that `tokio_util::task::AbortOnDropHandle::new` makes of `handle`.
pub uninterp spec fn guard_of(handle: tokio::task::JoinHandle<()>) -> tokio_util::task::AbortOnDropHandle<()>;

/// `tokio_util::task::AbortOnDropHandle::new`: wraps `handle`, and nothing else,
/// in a guard that aborts the task when it is dropped. That the drop aborts it
/// is left unsaid, for no value shows it.
#[verifier::external_body]
fn guard_task(handle: JoinHandle<()>) -> (guard: AbortOnDropHandle<()>)
    ensures
        guard == guard_of(handle),
{
    AbortOnDropHandle::new(handle)
}

/// `tokio_util::task::AbortOnDropHandle::detach`: cancels aborting on drop and
/// gives back the handle that `guard` was made of.
#[verifier::external_body]
fn detach_task(guard: AbortOnDropHandle<()>) -> (handle: JoinHandle<()>)
    ensures
        guard_of(handle) == guard,
{
    guard.detach()
}

/// A snapshot of one active monitor, returned by [`MonitorManager::list`].
pub struct MonitorInfo {
    pub id: String,
    pub description: String,
    pub command: String,
}

struct MonitorEntry {
    id: String,
    description: String,
    command: String,
    process_id: i32,
    task: AbortOnDropHandle<()>,
}

/// What the registry knows of a monitor.
pub struct MonitorRecord {
    pub description: Seq<char>,
    pub command: Seq<char>,
    pub process_id: i32,
    pub task: AbortOnDropHandle<()>,
}

impl MonitorEntry {
    spec fn record(self) -> MonitorRecord {
        MonitorRecord {
            description: self.description@,
            command: self.command@,
            process_id: self.process_id,
            task: self.task,
        }
    }
}

/// The registry of active monitors of one session. It holds the handles of the
/// delivery tasks; dropping a handle aborts its task.
pub struct MonitorManager {
    entries: Vec<MonitorEntry>,
}

spec fn holds(entries: Seq<MonitorEntry>, id: Seq<char>) -> bool {
    exists|i: int| 0 <= i < entries.len() && (#[trigger] entries[i]).id@ == id
}

spec fn entry_of(entries: Seq<MonitorEntry>, id: Seq<char>) -> MonitorEntry {
    entries[choose|i: int| 0 <= i < entries.len() && (#[trigger] entries[i]).id@ == id]
}

spec fn distinct(entries: Seq<MonitorEntry>) -> bool {
    forall|i: int, j: int|
        0 <= i < j < entries.len() ==> (#[trigger] entries[i]).id@ != (#[trigger] entries[j]).id@
}

spec fn records(entries: Seq<MonitorEntry>) -> Map<Seq<char>, MonitorRecord> {
    Map::new(|id: Seq<char>| holds(entries, id), |id: Seq<char>| entry_of(entries, id).record())
}

proof fn lemma_entry_of(entries: Seq<MonitorEntry>, i: int)
    requires
        distinct(entries),
        0 <= i < entries.len(),
    ensures
        holds(entries, entries[i].id@),
        entry_of(entries, entries[i].id@) == entries[i],
{
}

/// Whether `info` shows the record that `monitors` has under its id.
pub open spec fn shows(info: MonitorInfo, monitors: Map<Seq<char>, MonitorRecord>) -> bool {
    &&& monitors.contains_key(info.id@)
    &&& info.description@ == monitors[info.id@].description
    &&& info.command@ == monitors[info.id@].command
}

/// Whether `after` is `before` with a monitor under `id`, in place of the one
/// that was there. All others keep what they had, their tasks' handles too.
pub open spec fn registered(
    before: Map<Seq<char>, MonitorRecord>,
    after: Map<Seq<char>, MonitorRecord>,
    id: Seq<char>,
    process_id: i32,
    description: Seq<char>,
    command: Seq<char>,
    task: JoinHandle<()>,
) -> bool {
    &&& after.contains_key(id)
    &&& after[id].description == description
    &&& after[id].command == command
    &&& after[id].process_id == process_id
    &&& after[id].task == guard_of(task)
    &&& after.remove(id) == before.remove(id)
}

/// The process id that removing `id` gives.
pub open spec fn process_of(monitors: Map<Seq<char>, MonitorRecord>, id: Seq<char>) -> Option<i32> {
    if monitors.contains_key(id) {
        Some(monitors[id].process_id)
    } else {
        None
    }
}

impl View for MonitorManager {
    type V = Map<Seq<char>, MonitorRecord>;

    closed spec fn view(&self) -> Map<Seq<char>, MonitorRecord> {
        records(self.entries@)
    }
}

impl Default for MonitorManager {
    fn default() -> (manager: Self)
        ensures
            manager.wf(),
            manager@ == Map::<Seq<char>, MonitorRecord>::empty(),
    {
        MonitorManager::new()
    }
}

impl MonitorManager {
    /// No two entries have the same id.
    pub closed spec fn wf(&self) -> bool {
        distinct(self.entries@)
    }

    pub fn new() -> (manager: Self)
        ensures
            manager.wf(),
            manager@ == Map::<Seq<char>, MonitorRecord>::empty(),
    {
        let manager = MonitorManager { entries: Vec::new() };
        assert(manager@ =~= Map::<Seq<char>, MonitorRecord>::empty());
        manager
    }

    fn position(&self, id: &str) -> (at: Option<usize>)
        requires
            self.wf(),
        ensures
            match at {
                Some(i) => i < self.entries@.len() && self.entries@[i as int].id@ == id@,
                None => !holds(self.entries@, id@),
            },
    {
        let key = id.to_owned();
        let mut i: usize = 0;
        while i < self.entries.len()
            invariant
                i <= self.entries@.len(),
                key@ == id@,
                forall|j: int| 0 <= j < i ==> (#[trigger] self.entries@[j]).id@ != id@,
            decreases self.entries@.len() - i,
        {
            if self.entries[i].id == key {
                return Some(i);
            }
            i += 1;
        }
        None
    }

    fn take(&mut self, id: &str) -> (entry: Option<MonitorEntry>)
        requires
            old(self).wf(),
        ensures
            final(self).wf(),
            final(self)@ == old(self)@.remove(id@),
            match entry {
                Some(entry) => old(self)@.contains_key(id@) && entry.record() == old(self)@[id@],
                None => !old(self)@.contains_key(id@),
            },
            !holds(final(self).entries@, id@),
    {
        match self.position(id) {
            Some(i) => {
                let entry = self.entries.remove(i);
                proof {
                    let before = old(self).entries@;
                    let after = self.entries@;
                    assert(after =~= before.remove(i as int));
                    lemma_entry_of(before, i as int);
                    assert forall|k: Seq<char>|
                        k != id@ && #[trigger] holds(before, k) implies holds(after, k)
                        && entry_of(after, k) == entry_of(before, k) by {
                        let j = choose|j: int|
                            0 <= j < before.len() && (#[trigger] before[j]).id@ == k;
                        lemma_entry_of(before, j);
                        let m = if j < i { j } else { j - 1 };
                        assert(after[m] == before[j]);
                        lemma_entry_of(after, m);
                    }
                    assert forall|k: Seq<char>| #[trigger] holds(after, k) implies holds(before, k)
                        && k != id@ by {
                        let j = choose|j: int|
                            0 <= j < after.len() && (#[trigger] after[j]).id@ == k;
                        let m = if j < i { j } else { j + 1 };
                        assert(before[m] == after[j]);
                    }
                    assert(self@ =~= old(self)@.remove(id@));
                }
                Some(entry)
            },
            None => {
                assert(self@ =~= old(self)@.remove(id@));
                None
            },
        }
    }

    fn take_all(&mut self) -> (guards: Vec<AbortOnDropHandle<()>>)
        requires
            old(self).wf(),
        ensures
            final(self).wf(),
            final(self)@ == Map::<Seq<char>, MonitorRecord>::empty(),
            guards@.len() == old(self)@.len(),
            forall|id: Seq<char>| #[trigger]
                old(self)@.contains_key(id) ==> guards@.contains(old(self)@[id].task),
    {
        let mut entries: Vec<MonitorEntry> = Vec::new();
        std::mem::swap(&mut self.entries, &mut entries);
        let ghost all = entries@;
        let mut guards: Vec<AbortOnDropHandle<()>> = Vec::new();
        while entries.len() > 0
            invariant
                entries@.len() + guards@.len() == all.len(),
                entries@ == all.take(entries@.len() as int),
                forall|i: int|
                    entries@.len() <= i < all.len() ==> guards@[all.len() - 1 - i] == (
                    #[trigger] all[i]).task,
            decreases entries@.len(),
        {
            let last: usize = entries.len() - 1;
            let entry = entries.remove(last);
            guards.push(entry.task);
        }
        proof {
            lemma_records_len(all);
            assert(self@ =~= Map::<Seq<char>, MonitorRecord>::empty());
            assert forall|id: Seq<char>| #[trigger] old(self)@.contains_key(id) implies guards@.contains(
                old(self)@[id].task,
            ) by {
                let i = choose|i: int| 0 <= i < all.len() && (#[trigger] all[i]).id@ == id;
                lemma_entry_of(all, i);
                assert(guards@[all.len() - 1 - i] == all[i].task);
            }
        }
        guards
    }

    /// Registers a monitor and takes charge of its delivery task. A monitor that
    /// was registered under the same id is replaced, which drops its task's
    /// guard.
    pub fn insert(
        &mut self,
        id: String,
        process_id: i32,
        description: String,
        command: String,
        task: JoinHandle<()>,
    )
        requires
            old(self).wf(),
        ensures
            final(self).wf(),
            registered(
                old(self)@,
                final(self)@,
                id@,
                process_id,
                description@,
                command@,
                task,
            ),
    {
        let ghost key = id@;
        let _ = self.take(id.as_str());
        let ghost before = self.entries@;
        let entry = MonitorEntry {
            id,
            description,
            command,
            process_id,
            task: guard_task(task),
        };
        self.entries.push(entry);
        proof {
            let after = self.entries@;
            assert(distinct(after));
            lemma_entry_of(after, before.len() as int);
            assert forall|k: Seq<char>| #[trigger] holds(before, k) implies holds(after, k)
                && entry_of(after, k) == entry_of(before, k) by {
                let j = choose|j: int| 0 <= j < before.len() && (#[trigger] before[j]).id@ == k;
                lemma_entry_of(before, j);
                assert(after[j] == before[j]);
                lemma_entry_of(after, j);
            }
            assert forall|k: Seq<char>| k != key && #[trigger] holds(after, k) implies holds(
                before,
                k,
            ) by {
                let j = choose|j: int| 0 <= j < after.len() && (#[trigger] after[j]).id@ == k;
                assert(before[j] == after[j]);
            }
            assert(self@.remove(key) =~= old(self)@.remove(key));
        }
    }

    /// Removes a monitor, returning its process id so the caller can terminate
    /// the underlying process. Dropping the entry aborts its delivery task.
    pub fn remove(&mut self, id: &str) -> (process_id: Option<i32>)
        requires
            old(self).wf(),
        ensures
            final(self).wf(),
            final(self)@ == old(self)@.remove(id@),
            process_id == process_of(old(self)@, id@),
    {
        match self.take(id) {
            Some(entry) => Some(entry.process_id),
            None => None,
        }
    }

    /// Removes a monitor on behalf of its own delivery task as that task exits.
    /// [`MonitorManager::remove`] would abort the task before its last notice is
    /// delivered; here its guard is taken off, so the task goes on. Returns the
    /// task's handle, which can be dropped without aborting it.
    pub fn deregister_self(&mut self, id: &str) -> (task: Option<JoinHandle<()>>)
        requires
            old(self).wf(),
        ensures
            final(self).wf(),
            final(self)@ == old(self)@.remove(id@),
            match task {
                Some(task) => {
                    &&& old(self)@.contains_key(id@)
                    &&& guard_of(task) == old(self)@[id@].task
                },
                None => !old(self)@.contains_key(id@),
            },
    {
        match self.take(id) {
            Some(entry) => Some(detach_task(entry.task)),
            None => None,
        }
    }

    /// The active monitors, each once, in no particular order.
    pub fn list(&self) -> (infos: Vec<MonitorInfo>)
        requires
            self.wf(),
        ensures
            infos@.len() == self@.len(),
            forall|i: int| 0 <= i < infos@.len() ==> shows(#[trigger] infos@[i], self@),
            forall|i: int, j: int|
                0 <= i < j < infos@.len() ==> (#[trigger] infos@[i]).id@ != (
                #[trigger] infos@[j]).id@,
            forall|id: Seq<char>| #[trigger]
                self@.contains_key(id) ==> exists|i: int|
                    0 <= i < infos@.len() && (#[trigger] infos@[i]).id@ == id,
    {
        let mut infos: Vec<MonitorInfo> = Vec::new();
        let mut i: usize = 0;
        while i < self.entries.len()
            invariant
                i <= self.entries@.len(),
                infos@.len() == i,
                forall|j: int|
                    0 <= j < i ==> {
                        &&& (#[trigger] infos@[j]).id@ == self.entries@[j].id@
                        &&& infos@[j].description@ == self.entries@[j].description@
                        &&& infos@[j].command@ == self.entries@[j].command@
                    },
            decreases self.entries@.len() - i,
        {
            let entry = &self.entries[i];
            infos.push(
                MonitorInfo {
                    id: entry.id.clone(),
                    description: entry.description.clone(),
                    command: entry.command.clone(),
                },
            );
            i += 1;
        }
        proof {
            let entries = self.entries@;
            assert forall|j: int| 0 <= j < infos@.len() implies shows(
                #[trigger] infos@[j],
                self@,
            ) by {
                lemma_entry_of(entries, j);
            }
            assert forall|j: int, k: int| 0 <= j < k < infos@.len() implies (
            #[trigger] infos@[j]).id@ != (#[trigger] infos@[k]).id@ by {
                assert(entries[j].id@ != entries[k].id@);
            }
            assert forall|id: Seq<char>| #[trigger] self@.contains_key(id) implies exists|j: int|
                0 <= j < infos@.len() && (#[trigger] infos@[j]).id@ == id by {
                let j = choose|j: int|
                    0 <= j < entries.len() && (#[trigger] entries[j]).id@ == id;
                assert(infos@[j].id@ == id);
            }
            lemma_records_len(entries);
        }
        infos
    }

    /// Drops every monitor's entry, which aborts its delivery task. The processes
    /// themselves are reaped elsewhere.
    pub fn abort_all(&mut self)
        requires
            old(self).wf(),
        ensures
            final(self).wf(),
            final(self)@ == Map::<Seq<char>, MonitorRecord>::empty(),
    {
        let _ = self.take_all();
    }
}

proof fn lemma_records_len(entries: Seq<MonitorEntry>)
    requires
        distinct(entries),
    ensures
        records(entries).dom().finite(),
        records(entries).len() == entries.len(),
{
    let ids = entries.map_values(|entry: MonitorEntry| entry.id@);
    assert(ids.no_duplicates()) by {
        assert forall|i: int, j: int| 0 <= i < ids.len() && 0 <= j < ids.len() && i != j implies ids[i] != ids[j] by {
            assert(entries[i].id@ == ids[i]);
            assert(entries[j].id@ == ids[j]);
        }
    }
    ids.unique_seq_to_set();
    assert(records(entries).dom() =~= ids.to_set()) by {
        assert forall|id: Seq<char>| holds(entries, id) == ids.contains(id) by {
            if holds(entries, id) {
                let i = choose|i: int| 0 <= i < entries.len() && (#[trigger] entries[i]).id@ == id;
                assert(ids[i] == id);
            }
            if ids.contains(id) {
                let i = choose|i: int| 0 <= i < ids.len() && ids[i] == id;
                assert(entries[i].id@ == id);
            }
        }
    }
}

/// A registry holds finitely many monitors.
pub proof fn law_a_registry_is_finite(manager: MonitorManager)
    requires
        manager.wf(),
    ensures
        manager@.dom().finite(),
{
    lemma_records_len(manager.entries@);
}

/// What is registered is listed, holds the task it was given, and removing it
/// gives its process id and the registry as it was without it.
pub proof fn law_a_registered_monitor_can_be_removed(
    before: Map<Seq<char>, MonitorRecord>,
    after: Map<Seq<char>, MonitorRecord>,
    id: Seq<char>,
    process_id: i32,
    description: Seq<char>,
    command: Seq<char>,
    task: JoinHandle<()>,
)
    requires
        registered(before, after, id, process_id, description, command, task),
        before.dom().finite(),
    ensures
        process_of(after, id) == Some(process_id),
        after[id].task == guard_of(task),
        after.remove(id) == before.remove(id),
        !before.contains_key(id) ==> after.remove(id) == before && after.len() == before.len() + 1,
        before.contains_key(id) ==> after.len() == before.len(),
{
    assert(after.dom() =~= after.remove(id).dom().insert(id));
    assert(after.remove(id).dom() == before.dom().remove(id));
    if !before.contains_key(id) {
        assert(before.remove(id) =~= before);
    } else {
        assert(before.dom() =~= before.dom().remove(id).insert(id));
    }
}

/// Deregistering keeps the task: registering the monitor again with the handle
/// that came back restores the registry, the task's guard included.
pub proof fn law_a_deregistered_task_can_be_registered_again(
    monitors: Map<Seq<char>, MonitorRecord>,
    after: Map<Seq<char>, MonitorRecord>,
    id: Seq<char>,
    task: JoinHandle<()>,
)
    requires
        monitors.contains_key(id),
        guard_of(task) == monitors[id].task,
        registered(
            monitors.remove(id),
            after,
            id,
            monitors[id].process_id,
            monitors[id].description,
            monitors[id].command,
            task,
        ),
    ensures
        after == monitors,
{
    assert(monitors.remove(id).remove(id) =~= monitors.remove(id));
    assert(after[id] == monitors[id]);
    assert forall|k: Seq<char>| after.contains_key(k) == monitors.contains_key(k) && (
    after.contains_key(k) ==> after[k] == monitors[k]) by {
        if k != id {
            assert(after.remove(id).contains_key(k) == after.contains_key(k));
            assert(monitors.remove(id).contains_key(k) == monitors.contains_key(k));
            if after.contains_key(k) {
                assert(after.remove(id)[k] == after[k]);
                assert(monitors.remove(id)[k] == monitors[k]);
            }
        }
    }
    assert(after =~= monitors);
}

/// A monitor is removed once: removing it again gives nothing and changes
/// nothing, and neither does removing one that was never there.
pub proof fn law_a_monitor_is_removed_once(monitors: Map<Seq<char>, MonitorRecord>, id: Seq<char>)
    ensures
        process_of(monitors.remove(id), id) is None,
        monitors.remove(id).remove(id) == monitors.remove(id),
        !monitors.contains_key(id) ==> monitors.remove(id) == monitors,
{
    assert(monitors.remove(id).remove(id) =~= monitors.remove(id));
    if !monitors.contains_key(id) {
        assert(monitors.remove(id) =~= monitors);
    }
}

/// Removing one monitor leaves every other as it was.
pub proof fn law_other_monitors_are_left_alone(
    monitors: Map<Seq<char>, MonitorRecord>,
    id: Seq<char>,
    other: Seq<char>,
)
    requires
        other != id,
    ensures
        monitors.remove(id).contains_key(other) == monitors.contains_key(other),
        monitors.contains_key(other) ==> monitors.remove(id)[other] == monitors[other],
{
}

/// Registering puts in the registry just what it was given, under just that id.
pub proof fn law_registering_puts_in_what_it_was_given(
    before: Map<Seq<char>, MonitorRecord>,
    after: Map<Seq<char>, MonitorRecord>,
    id: Seq<char>,
    process_id: i32,
    description: Seq<char>,
    command: Seq<char>,
    task: JoinHandle<()>,
)
    ensures
        registered(before, after, id, process_id, description, command, task) <==> after
            == before.insert(
            id,
            (MonitorRecord { description, command, process_id, task: guard_of(task) }),
        ),
{
    let record = MonitorRecord { description, command, process_id, task: guard_of(task) };
    if registered(before, after, id, process_id, description, command, task) {
        let all = before.insert(id, record);
        assert(after[id] == record);
        assert forall|k: Seq<char>|
            #![trigger after.contains_key(k)]
            #![trigger all.contains_key(k)]
            #![trigger after[k]]
            after.contains_key(k) == all.contains_key(k) && (after.contains_key(k) ==> after[k]
                == all[k]) by {
            if k != id {
                assert(after.remove(id).contains_key(k) == after.contains_key(k));
                assert(before.remove(id).contains_key(k) == before.contains_key(k));
                if after.contains_key(k) {
                    assert(after.remove(id)[k] == after[k]);
                    assert(before.remove(id)[k] == before[k]);
                }
            }
        }
        assert(after.dom() =~= all.dom());
        assert(after =~= all);
    }
    if after == before.insert(id, record) {
        assert(after.remove(id) =~= before.remove(id));
    }
}

/// Removing a monitor that was registered gives the process id that it was
/// registered with, whatever it is, and listing it shows the description and the
/// command that it was registered with.
pub proof fn law_a_registry_gives_back_what_was_registered(
    before: Map<Seq<char>, MonitorRecord>,
    id: Seq<char>,
    record: MonitorRecord,
    info: MonitorInfo,
)
    requires
        info.id@ == id,
    ensures
        process_of(before.insert(id, record), id) == Some(record.process_id),
        shows(info, before.insert(id, record)) <==> info.description@ == record.description
            && info.command@ == record.command,
        !shows(info, before.remove(id)),
        process_of(before.remove(id), id) is None,
{
}

} // verus!
