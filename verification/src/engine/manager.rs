//! The task registry: adding, controlling, saving and restoring downloads, and
//! what a running download's events do to its task.

use crate::engine::config::EngineConfig;
use crate::engine::scheduler::{EventView, FoundView, SchedulerEvent};
use crate::engine::session;
use crate::engine::session::Session;
use crate::engine::speed;
use crate::engine::task;
use crate::engine::task::{
    DownloadProgress, DownloadState, DownloadTask, ProgressView, StateView, TaskId, TaskOptions,
    TaskView, Timestamp,
};
use crate::path;
use crate::path::FilePath;
use crate::text;
use dashmap::DashMap;
use vstd::prelude::*;

verus! {

// ─── The map of entries ──────────────────────────────────────────────────────

/// A registered task, with all text in view.
pub struct EntryView {
    pub task: TaskView,
    pub progress: Option<Option<ProgressView>>,
}

/// A registered task and its progress: none before it first runs, and then the
/// latest report, if there was one.
#[derive(Debug)]
pub struct Entry {
    pub task: DownloadTask,
    pub progress: Option<Option<DownloadProgress>>,
}

impl View for Entry {
    type V = EntryView;

    open spec fn view(&self) -> EntryView {
        EntryView {
            task: self.task@,
            progress: match self.progress {
                Some(latest) => Some(task::progress_view(latest)),
                None => None,
            },
        }
    }
}

impl Clone for Entry {
    fn clone(&self) -> (copy: Self)
        ensures
            copy@ == self@,
    {
        Entry {
            task: self.task.clone(),
            progress: match &self.progress {
                Some(latest) => Some(task::copy_progress(latest)),
                None => None,
            },
        }
    }
}

/// Each entry, with all text in view.
pub open spec fn each_entry(entries: Seq<Entry>) -> Seq<EntryView> {
    entries.map_values(|e: Entry| e@)
}

/// `dashmap::DashMap`, carried as an opaque value.
#[verifier::external_type_specification]
#[verifier::external_body]
#[verifier::reject_recursive_types(K)]
#[verifier::reject_recursive_types(V)]
#[verifier::reject_recursive_types(S)]
pub struct ExDashMap<K, V, S>(dashmap::DashMap<K, V, S>);

/// A registry without tasks.
pub open spec fn no_entries() -> Map<Seq<char>, EntryView> {
    Map::empty()
}

/// The entries of the map, by the characters of their keys.
pub uninterp spec fn entries_of(map: DashMap<String, Entry>) -> Map<Seq<char>, EntryView>;

/// `DashMap::new`: a map without entries.
#[verifier::external_body]
fn map_new() -> (map: DashMap<String, Entry>)
    ensures
        entries_of(map) == no_entries(),
{
    DashMap::new()
}

/// `DashMap::insert`: the entry stands under the key, in place of one that stood
/// there before; the others are left alone.
#[verifier::external_body]
fn map_insert(map: &mut DashMap<String, Entry>, key: String, entry: Entry)
    ensures
        entries_of(*final(map)) == entries_of(*old(map)).insert(key@, entry@),
{
    map.insert(key, entry);
}

/// `DashMap::get`, and a copy of what the reference points to: the entry under
/// the key, `None` where there is none.
#[verifier::external_body]
fn map_get(map: &DashMap<String, Entry>, key: &str) -> (entry: Option<Entry>)
    ensures
        match entry {
            Some(e) => entries_of(*map).contains_key(key@) && e@ == entries_of(*map)[key@],
            None => !entries_of(*map).contains_key(key@),
        },
{
    map.get(key).map(|e| e.value().clone())
}

/// `DashMap::remove`: takes the entry under the key out of the map; the others
/// are left alone.
#[verifier::external_body]
fn map_remove(map: &mut DashMap<String, Entry>, key: &str) -> (entry: Option<Entry>)
    ensures
        entries_of(*final(map)) == entries_of(*old(map)).remove(key@),
        match entry {
            Some(e) => entries_of(*old(map)).contains_key(key@) && e@ == entries_of(
                *old(map),
            )[key@],
            None => !entries_of(*old(map)).contains_key(key@),
        },
{
    map.remove(key).map(|(_, e)| e)
}

/// `DashMap::iter`, and a copy of what each reference points to: every entry
/// once, in no particular order.
#[verifier::external_body]
fn map_entries(map: &DashMap<String, Entry>) -> (entries: Vec<Entry>)
    ensures
        are_all(each_entry(entries@), entries_of(*map)),
{
    map.iter().map(|e| e.value().clone()).collect()
}

/// Every key of the map once.
pub open spec fn lists(keys: Seq<Seq<char>>, m: Map<Seq<char>, EntryView>) -> bool {
    keys.no_duplicates() && keys.to_set() == m.dom()
}

/// The entries under these keys, in their order.
pub open spec fn entries_at(m: Map<Seq<char>, EntryView>, keys: Seq<Seq<char>>) -> Seq<EntryView> {
    keys.map_values(|k: Seq<char>| m[k])
}

/// The entries are those of the map, each once, in some order.
pub open spec fn are_all(entries: Seq<EntryView>, m: Map<Seq<char>, EntryView>) -> bool {
    exists|keys: Seq<Seq<char>>| lists(keys, m) && entries == #[trigger] entries_at(m, keys)
}

/// The tasks under these keys, in their order.
pub open spec fn tasks_at(m: Map<Seq<char>, EntryView>, keys: Seq<Seq<char>>) -> Seq<TaskView> {
    keys.map_values(|k: Seq<char>| m[k].task)
}

// ─── What operations do ──────────────────────────────────────────────────────

/// Every task is registered under its own identifier.
pub open spec fn keyed(m: Map<Seq<char>, EntryView>) -> bool {
    forall|k: Seq<char>| #[trigger] m.contains_key(k) ==> m[k].task.id == k
}

/// What is said of an identifier that is not registered.
pub open spec fn not_found(id: Seq<char>) -> Seq<char> {
    "Task not found: "@ + id
}

/// The task in another state.
pub open spec fn in_state(t: TaskView, state: StateView) -> TaskView {
    TaskView { state, ..t }
}

/// The registry with another task under `id`; the progress stays.
pub open spec fn with_task(
    m: Map<Seq<char>, EntryView>,
    id: Seq<char>,
    t: TaskView,
) -> Map<Seq<char>, EntryView> {
    m.insert(
        id,
        EntryView {
            task: t,
            progress: if m.contains_key(id) {
                m[id].progress
            } else {
                None
            },
        },
    )
}

/// The registry after a pause: an active task is paused.
pub open spec fn paused(m: Map<Seq<char>, EntryView>, id: Seq<char>) -> Map<
    Seq<char>,
    EntryView,
> {
    if m.contains_key(id) && m[id].task.state.active() {
        with_task(m, id, in_state(m[id].task, StateView::Paused))
    } else {
        m
    }
}

/// The registry after a resume: a paused task is queued.
pub open spec fn resumed(m: Map<Seq<char>, EntryView>, id: Seq<char>) -> Map<
    Seq<char>,
    EntryView,
> {
    if m.contains_key(id) && m[id].task.state is Paused {
        with_task(m, id, in_state(m[id].task, StateView::Queued))
    } else {
        m
    }
}

/// A saved task as it is restored: an interrupted download is queued again.
pub open spec fn requeued(t: TaskView) -> TaskView {
    if t.state.active() {
        in_state(t, StateView::Queued)
    } else {
        t
    }
}

/// The registry after the tasks were restored, one after the other.
pub open spec fn restored(m: Map<Seq<char>, EntryView>, tasks: Seq<TaskView>) -> Map<
    Seq<char>,
    EntryView,
>
    decreases tasks.len(),
{
    if tasks.len() == 0 {
        m
    } else {
        with_task(restored(m, tasks.drop_last()), tasks.last().id, requeued(tasks.last()))
    }
}

/// The identifiers of the tasks that were interrupted.
pub open spec fn interrupted(tasks: Seq<TaskView>) -> Seq<Seq<char>> {
    tasks.filter(|t: TaskView| t.state.active()).map_values(|t: TaskView| t.id)
}

/// The registry after a task began to run: it is being probed, and its progress
/// is empty.
pub open spec fn begun(
    m: Map<Seq<char>, EntryView>,
    id: Seq<char>,
    now: Timestamp,
) -> Map<Seq<char>, EntryView> {
    if m.contains_key(id) {
        m.insert(
            id,
            EntryView {
                task: TaskView {
                    state: StateView::Probing,
                    started_at: Some(now),
                    ..m[id].task
                },
                progress: Some(None),
            },
        )
    } else {
        m
    }
}

/// What an event of its download does to an entry.
pub open spec fn noted(e: EntryView, id: Seq<char>, event: EventView, now: Timestamp) -> EntryView {
    match event {
        EventView::Found(found) => EntryView {
            task: TaskView {
                total_bytes: found.total_bytes,
                accepts_ranges: found.accepts_ranges,
                etag: found.etag,
                last_modified: found.last_modified,
                output_path: Some(found.output_path),
                chunk_map: found.chunk_map,
                ..e.task
            },
            ..e
        },
        EventView::Chunks(chunks) => EntryView {
            task: TaskView { chunk_map: Some(chunks), ..e.task },
            ..e
        },
        EventView::StateChange(state) => EntryView { task: in_state(e.task, state), ..e },
        EventView::Progress { downloaded, speed_bps, connections } => EntryView {
            progress: Some(
                Some(
                    ProgressView {
                        task_id: id,
                        state: e.task.state,
                        total_bytes: e.task.total_bytes,
                        downloaded_bytes: downloaded,
                        speed_bps,
                        eta_secs: speed::eta_of(e.task.total_bytes, downloaded, speed_bps),
                        connections,
                        chunk_progress: Seq::empty(),
                    },
                ),
            ),
            ..e
        },
        EventView::Complete { output_path } => EntryView {
            task: TaskView {
                state: StateView::Complete,
                output_path: Some(output_path),
                completed_at: Some(now),
                ..e.task
            },
            ..e
        },
        EventView::Error(message) => EntryView {
            task: TaskView {
                state: StateView::Error(message),
                error_message: Some(message),
                ..e.task
            },
            ..e
        },
    }
}

// ─── The manager ─────────────────────────────────────────────────────────────

/// The central manager: the configuration and the registered tasks. It alone
/// holds the map, so nothing changes it between two operations.
#[derive(Debug)]
pub struct DownloadManager {
    config: EngineConfig,
    tasks: DashMap<String, Entry>,
}

impl View for DownloadManager {
    type V = Map<Seq<char>, EntryView>;

    closed spec fn view(&self) -> Map<Seq<char>, EntryView> {
        entries_of(self.tasks)
    }
}

impl DownloadManager {
    /// Every task is registered under its own identifier.
    pub open spec fn wf(self) -> bool {
        keyed(self@)
    }

    /// The configuration.
    pub closed spec fn settings(self) -> EngineConfig {
        self.config
    }

    /// Create a new manager.
    pub fn new(config: EngineConfig) -> (manager: Self)
        ensures
            manager.wf(),
            manager@ == no_entries(),
            manager.settings() == config,
    {
        DownloadManager { config, tasks: map_new() }
    }

    pub fn config(&self) -> (config: &EngineConfig)
        ensures
            *config == self.settings(),
    {
        &self.config
    }

    /// Queue a new download. Returns the TaskId.
    pub fn add(&mut self, urls: Vec<String>, options: TaskOptions) -> (r: Result<TaskId, String>)
        requires
            old(self).wf(),
        ensures
            final(self).wf(),
            final(self).settings() == old(self).settings(),
            r is Ok <==> urls@.len() > 0,
            match r {
                Ok(id) => {
                    &&& task::is_gid(id.0@)
                    &&& exists|now: Timestamp|
                        final(self)@ == with_task(
                            old(self)@,
                            id.0@,
                            #[trigger] task::queued_task(
                                id.0@,
                                text::each(urls@),
                                options@,
                                now,
                            ),
                        )
                },
                Err(e) => e@ == "At least one URL required"@ && final(self)@ == old(self)@,
            },
    {
        let id = TaskId::new();
        let now = task::utc_now();
        self.add_as(id, now, urls, options)
    }

    /// `add` with a given identifier and creation time.
    pub fn add_as(
        &mut self,
        id: TaskId,
        now: Timestamp,
        urls: Vec<String>,
        options: TaskOptions,
    ) -> (r: Result<TaskId, String>)
        requires
            old(self).wf(),
        ensures
            final(self).wf(),
            final(self).settings() == old(self).settings(),
            r is Ok <==> urls@.len() > 0,
            match r {
                Ok(new) => {
                    &&& new == id
                    &&& final(self)@ == with_task(
                        old(self)@,
                        id.0@,
                        task::queued_task(id.0@, text::each(urls@), options@, now),
                    )
                },
                Err(e) => e@ == "At least one URL required"@ && final(self)@ == old(self)@,
            },
    {
        if urls.len() == 0 {
            return Err("At least one URL required".to_string());
        }
        let task = DownloadTask::queued(id.clone(), urls, options, now);
        self.put(task);
        Ok(id)
    }

    /// Register a task under its identifier; the progress stays.
    fn put(&mut self, task: DownloadTask)
        requires
            old(self).wf(),
        ensures
            final(self).wf(),
            final(self).settings() == old(self).settings(),
            final(self)@ == with_task(old(self)@, task@.id, task@),
    {
        let key = task.id.0.clone();
        let progress = match map_get(&self.tasks, key.as_str()) {
            Some(entry) => entry.progress,
            None => None,
        };
        map_insert(&mut self.tasks, key, Entry { task, progress });
    }

    /// Put an entry under the identifier of its task.
    fn store(&mut self, entry: Entry)
        requires
            old(self).wf(),
        ensures
            final(self).wf(),
            final(self).settings() == old(self).settings(),
            final(self)@ == old(self)@.insert(entry@.task.id, entry@),
    {
        let key = entry.task.id.0.clone();
        map_insert(&mut self.tasks, key, entry);
    }

    /// Pause an active task.
    pub fn pause(&mut self, id: &TaskId) -> (r: Result<(), String>)
        requires
            old(self).wf(),
        ensures
            final(self).wf(),
            final(self).settings() == old(self).settings(),
            final(self)@ == paused(old(self)@, id.0@),
            r is Ok <==> old(self)@.contains_key(id.0@),
            r matches Err(e) ==> e@ == not_found(id.0@),
    {
        match map_get(&self.tasks, id.0.as_str()) {
            None => Err(not_found_message(id)),
            Some(mut entry) => {
                if entry.task.state.is_active() {
                    entry.task.state = DownloadState::Paused;
                    self.store(entry);
                }
                Ok(())
            },
        }
    }

    /// Resume a paused task. Returns whether it has to be started again.
    pub fn resume(&mut self, id: &TaskId) -> (r: Result<bool, String>)
        requires
            old(self).wf(),
        ensures
            final(self).wf(),
            final(self).settings() == old(self).settings(),
            final(self)@ == resumed(old(self)@, id.0@),
            match r {
                Ok(start) => {
                    &&& old(self)@.contains_key(id.0@)
                    &&& start == (old(self)@[id.0@].task.state is Paused)
                },
                Err(e) => !old(self)@.contains_key(id.0@) && e@ == not_found(id.0@),
            },
    {
        match map_get(&self.tasks, id.0.as_str()) {
            None => Err(not_found_message(id)),
            Some(mut entry) => {
                if matches!(entry.task.state, DownloadState::Paused) {
                    entry.task.state = DownloadState::Queued;
                    self.store(entry);
                    Ok(true)
                } else {
                    Ok(false)
                }
            },
        }
    }

    /// Cancel a task. With `remove_file`, returns the partial file to delete, if
    /// there is one.
    pub fn cancel(&mut self, id: &TaskId, remove_file: bool) -> (file: Option<FilePath>)
        requires
            old(self).wf(),
        ensures
            final(self).wf(),
            final(self).settings() == old(self).settings(),
            final(self)@ == old(self)@.remove(id.0@),
            path::opt(file) == (if remove_file && old(self)@.contains_key(id.0@) {
                old(self)@[id.0@].task.output_path
            } else {
                None
            }),
    {
        match map_remove(&mut self.tasks, id.0.as_str()) {
            Some(entry) => if remove_file {
                entry.task.output_path
            } else {
                None
            },
            None => None,
        }
    }

    /// List all tasks (snapshot), in no particular order.
    pub fn list(&self) -> (tasks: Vec<DownloadTask>)
        ensures
            exists|keys: Seq<Seq<char>>|
                lists(keys, self@) && task::each_task(tasks@) == #[trigger] tasks_at(self@, keys),
    {
        let entries = map_entries(&self.tasks);
        let ghost keys = choose|keys: Seq<Seq<char>>|
            lists(keys, self@) && each_entry(entries@) == #[trigger] entries_at(self@, keys);
        let mut tasks: Vec<DownloadTask> = Vec::new();
        let mut i: usize = 0;
        assert(each_entry(entries@).len() == entries_at(self@, keys).len());
        assert(task::each_task(tasks@) =~= tasks_at(self@, keys.take(0)));
        while i < entries.len()
            invariant
                i <= entries@.len() == keys.len(),
                each_entry(entries@) == entries_at(self@, keys),
                task::each_task(tasks@) == tasks_at(self@, keys.take(i as int)),
            decreases entries@.len() - i,
        {
            assert(each_entry(entries@)[i as int] == entries@[i as int]@);
            assert(entries_at(self@, keys)[i as int] == self@[keys[i as int]]);
            let ghost so_far = tasks@;
            tasks.push(entries[i].task.clone());
            proof {
                let t = entries@[i as int]@.task;
                assert(task::each_task(tasks@) =~= task::each_task(so_far).push(t));
                assert(tasks_at(self@, keys.take(i + 1)) =~= tasks_at(
                    self@,
                    keys.take(i as int),
                ).push(t));
            }
            i += 1;
        }
        assert(keys.take(i as int) =~= keys);
        tasks
    }

    /// Get a single task by ID.
    pub fn get(&self, id: &TaskId) -> (task: Option<DownloadTask>)
        ensures
            match task {
                Some(t) => self@.contains_key(id.0@) && t@ == self@[id.0@].task,
                None => !self@.contains_key(id.0@),
            },
    {
        match map_get(&self.tasks, id.0.as_str()) {
            Some(entry) => Some(entry.task),
            None => None,
        }
    }

    /// The live progress of a task: `None` if the task doesn't exist or has not
    /// run yet, and otherwise the latest report, if there was one.
    pub fn subscribe(&self, id: &TaskId) -> (progress: Option<Option<DownloadProgress>>)
        ensures
            (match progress {
                Some(latest) => Some(task::progress_view(latest)),
                None => None,
            }) == progress_of(self@, id.0@),
    {
        match map_get(&self.tasks, id.0.as_str()) {
            Some(entry) => entry.progress,
            None => None,
        }
    }

    /// The latest report of a task's progress, if there was one.
    pub fn latest_progress(&self, id: &TaskId) -> (progress: Option<DownloadProgress>)
        ensures
            task::progress_view(progress) == latest_of(self@, id.0@),
    {
        match self.subscribe(id) {
            Some(latest) => latest,
            None => None,
        }
    }

    /// Restore a previously saved session (call on startup). Returns the
    /// interrupted downloads, which have to be started again.
    pub fn restore_session(&mut self, session: Session) -> (restart: Vec<TaskId>)
        requires
            old(self).wf(),
        ensures
            final(self).wf(),
            final(self).settings() == old(self).settings(),
            final(self)@ == restored(old(self)@, session@),
            each_id(restart@) == interrupted(session@),
    {
        let ghost tasks = session@;
        let ghost active = |t: TaskView| t.state.active();
        let ghost id_of = |t: TaskView| t.id;
        let mut restart: Vec<TaskId> = Vec::new();
        let mut i: usize = 0;
        proof {
            reveal(Seq::filter);
            assert(each_id(restart@) =~= tasks.take(0).filter(active).map_values(id_of));
        }
        while i < session.tasks.len()
            invariant
                i <= session.tasks@.len(),
                tasks == session@,
                self.wf(),
                self.settings() == old(self).settings(),
                self@ == restored(old(self)@, tasks.take(i as int)),
                active == (|t: TaskView| t.state.active()),
                id_of == (|t: TaskView| t.id),
                each_id(restart@) == tasks.take(i as int).filter(active).map_values(id_of),
            decreases session.tasks@.len() - i,
        {
            let mut task = session.tasks[i].clone();
            proof {
                reveal(Seq::filter);
                assert(tasks.take(i + 1).drop_last() =~= tasks.take(i as int));
                assert(tasks[i as int] == session.tasks@[i as int]@);
            }
            let ghost so_far = restart@;
            let ghost kept = tasks.take(i as int).filter(active);
            if task.state.is_active() {
                // Re-queue interrupted downloads
                task.state = DownloadState::Queued;
                restart.push(task.id.clone());
                proof {
                    assert(tasks.take(i + 1).filter(active) == kept.push(tasks[i as int]));
                    assert(each_id(restart@) =~= each_id(so_far).push(tasks[i as int].id));
                    assert(kept.push(tasks[i as int]).map_values(id_of) =~= kept.map_values(
                        id_of,
                    ).push(tasks[i as int].id));
                }
            }
            self.put(task);
            i += 1;
        }
        assert(tasks.take(i as int) =~= tasks);
        restart
    }

    /// The tasks that wait for a slot, in no particular order: after a restart these
    /// are to be run, those that were interrupted among them.
    pub fn queued(&self) -> (ids: Vec<TaskId>)
        requires
            self.wf(),
        ensures
            exists|keys: Seq<Seq<char>>|
                lists(keys, self@) && each_id(ids@) == #[trigger] queued_keys(self@, keys),
    {
        let tasks = self.list();
        let ghost m = self@;
        let ghost keys = choose|keys: Seq<Seq<char>>|
            lists(keys, m) && task::each_task(tasks@) == #[trigger] tasks_at(m, keys);
        let mut ids: Vec<TaskId> = Vec::new();
        let mut i: usize = 0;
        proof {
            reveal(Seq::filter);
            assert(task::each_task(tasks@).len() == tasks_at(m, keys).len());
            assert(each_id(ids@) =~= queued_keys(m, keys.take(0)));
        }
        while i < tasks.len()
            invariant
                i <= tasks@.len() == keys.len(),
                keyed(m),
                lists(keys, m),
                task::each_task(tasks@) == tasks_at(m, keys),
                each_id(ids@) == queued_keys(m, keys.take(i as int)),
            decreases tasks@.len() - i,
        {
            let ghost k = keys[i as int];
            proof {
                reveal(Seq::filter);
                assert(keys.take(i + 1).drop_last() =~= keys.take(i as int));
                assert(task::each_task(tasks@)[i as int] == tasks@[i as int]@);
                assert(tasks_at(m, keys)[i as int] == m[k].task);
                assert(keys.to_set().contains(k));
            }
            let ghost so_far = ids@;
            if matches!(tasks[i].state, DownloadState::Queued) {
                ids.push(tasks[i].id.clone());
                assert(each_id(ids@) =~= each_id(so_far).push(k));
            }
            i += 1;
        }
        assert(keys.take(i as int) =~= keys);
        ids
    }

    /// The current state, to be persisted to the session file.
    pub fn save_session(&self) -> (session: Session)
        requires
            self.wf(),
        ensures
            exists|keys: Seq<Seq<char>>|
                lists(keys, self@) && session@ == #[trigger] tasks_at(self@, keys),
    {
        let tasks = self.list();
        let ghost keys = choose|keys: Seq<Seq<char>>|
            lists(keys, self@) && task::each_task(tasks@) == #[trigger] tasks_at(self@, keys);
        let ghost saved = tasks_at(self@, keys);
        let mut session = Session::new();
        let mut i: usize = 0;
        assert(session@ =~= saved.take(0));
        assert(task::each_task(tasks@).len() == saved.len());
        while i < tasks.len()
            invariant
                i <= tasks@.len() == keys.len(),
                self.wf(),
                lists(keys, self@),
                saved == tasks_at(self@, keys),
                task::each_task(tasks@) == saved,
                session@ == saved.take(i as int),
            decreases tasks@.len() - i,
        {
            proof {
                let t = saved[i as int];
                assert(t == tasks@[i as int]@);
                assert(keys.to_set().contains(keys[i as int]));
                assert(t.id == keys[i as int]);
                session::task_at_is_first(session@, t.id);
                assert forall|j: int| 0 <= j < i implies (#[trigger] session@[j]).id != t.id by {
                    assert(keys.to_set().contains(keys[j]));
                    assert(saved[j].id == keys[j]);
                    assert(keys[j] != keys[i as int]);
                }
            }
            session.upsert(tasks[i].clone());
            i += 1;
            assert(session@ =~= saved.take(i as int));
        }
        assert(saved.take(i as int) =~= saved);
        session
    }

    /// A task got its slot and begins to run. Returns the task as it was queued;
    /// `None` if it was cancelled meanwhile.
    pub fn begin(&mut self, id: &TaskId) -> (task: Option<DownloadTask>)
        requires
            old(self).wf(),
        ensures
            final(self).wf(),
            final(self).settings() == old(self).settings(),
            exists|now: Timestamp| final(self)@ == #[trigger] begun(old(self)@, id.0@, now),
            match task {
                Some(t) => old(self)@.contains_key(id.0@) && t@ == old(self)@[id.0@].task,
                None => !old(self)@.contains_key(id.0@),
            },
    {
        let now = task::utc_now();
        self.begin_at(id, now)
    }

    /// `begin` at `now`.
    pub fn begin_at(&mut self, id: &TaskId, now: Timestamp) -> (task: Option<DownloadTask>)
        requires
            old(self).wf(),
        ensures
            final(self).wf(),
            final(self).settings() == old(self).settings(),
            final(self)@ == begun(old(self)@, id.0@, now),
            match task {
                Some(t) => old(self)@.contains_key(id.0@) && t@ == old(self)@[id.0@].task,
                None => !old(self)@.contains_key(id.0@),
            },
    {
        match map_get(&self.tasks, id.0.as_str()) {
            None => None,
            Some(mut entry) => {
                let task = entry.task.clone();
                entry.task.state = DownloadState::Probing;
                entry.task.started_at = Some(now);
                entry.progress = Some(None);
                self.store(entry);
                Some(task)
            },
        }
    }

    /// Apply an event of a running download to its task.
    pub fn on_event(&mut self, id: &TaskId, event: SchedulerEvent)
        requires
            old(self).wf(),
        ensures
            final(self).wf(),
            final(self).settings() == old(self).settings(),
            old(self)@.contains_key(id.0@) ==> exists|now: Timestamp|
                final(self)@ == old(self)@.insert(
                    id.0@,
                    #[trigger] noted(old(self)@[id.0@], id.0@, event@, now),
                ),
            !old(self)@.contains_key(id.0@) ==> final(self)@ == old(self)@,
    {
        let now = task::utc_now();
        self.on_event_at(id, event, now);
    }

    /// `on_event` at `now`.
    pub fn on_event_at(&mut self, id: &TaskId, event: SchedulerEvent, now: Timestamp)
        requires
            old(self).wf(),
        ensures
            final(self).wf(),
            final(self).settings() == old(self).settings(),
            final(self)@ == (if old(self)@.contains_key(id.0@) {
                old(self)@.insert(id.0@, noted(old(self)@[id.0@], id.0@, event@, now))
            } else {
                old(self)@
            }),
    {
        let mut entry = match map_get(&self.tasks, id.0.as_str()) {
            Some(entry) => entry,
            None => return,
        };
        let ghost before = entry@;
        match event {
            SchedulerEvent::Found(found) => {
                entry.task.total_bytes = found.total_bytes;
                entry.task.accepts_ranges = found.accepts_ranges;
                entry.task.etag = found.etag;
                entry.task.last_modified = found.last_modified;
                entry.task.output_path = Some(found.output_path);
                entry.task.chunk_map = found.chunk_map;
            },
            SchedulerEvent::Chunks(map) => {
                entry.task.chunk_map = Some(map);
            },
            SchedulerEvent::StateChange(state) => {
                entry.task.state = state;
            },
            SchedulerEvent::Progress { downloaded, speed_bps, connections } => {
                let progress = DownloadProgress {
                    task_id: id.clone(),
                    state: entry.task.state.clone(),
                    total_bytes: entry.task.total_bytes,
                    downloaded_bytes: downloaded,
                    speed_bps,
                    eta_secs: speed::eta(entry.task.total_bytes, downloaded, speed_bps),
                    connections,
                    chunk_progress: Vec::new(),
                };
                assert(progress@.chunk_progress =~= Seq::empty());
                entry.progress = Some(Some(progress));
            },
            SchedulerEvent::Complete { output_path } => {
                entry.task.state = DownloadState::Complete;
                entry.task.output_path = Some(output_path);
                entry.task.completed_at = Some(now);
            },
            SchedulerEvent::Error(e) => {
                entry.task.state = DownloadState::Error(e.clone());
                entry.task.error_message = Some(e);
            },
        }
        assert(entry@ == noted(before, id.0@, event@, now));
        self.store(entry);
    }

    /// The download ended with an error: the task is in error.
    pub fn scheduler_failed(&mut self, id: &TaskId, message: String)
        requires
            old(self).wf(),
        ensures
            final(self).wf(),
            final(self).settings() == old(self).settings(),
            final(self)@ == (if old(self)@.contains_key(id.0@) {
                with_task(
                    old(self)@,
                    id.0@,
                    in_state(old(self)@[id.0@].task, StateView::Error(message@)),
                )
            } else {
                old(self)@
            }),
    {
        match map_get(&self.tasks, id.0.as_str()) {
            None => {},
            Some(mut entry) => {
                entry.task.state = DownloadState::Error(message);
                self.store(entry);
            },
        }
    }
}

/// The progress of a task, as `subscribe` gives it.
pub open spec fn progress_of(m: Map<Seq<char>, EntryView>, id: Seq<char>) -> Option<
    Option<ProgressView>,
> {
    if m.contains_key(id) {
        m[id].progress
    } else {
        None
    }
}

/// The latest report of a task's progress.
pub open spec fn latest_of(m: Map<Seq<char>, EntryView>, id: Seq<char>) -> Option<ProgressView> {
    match progress_of(m, id) {
        Some(latest) => latest,
        None => None,
    }
}

/// The keys of the tasks that wait for a slot, in their order.
pub open spec fn queued_keys(
    m: Map<Seq<char>, EntryView>,
    keys: Seq<Seq<char>>,
) -> Seq<Seq<char>> {
    keys.filter(|k: Seq<char>| m[k].task.state is Queued)
}

/// The text of each identifier.
pub open spec fn each_id(ids: Seq<TaskId>) -> Seq<Seq<char>> {
    ids.map_values(|id: TaskId| id.0@)
}

fn not_found_message(id: &TaskId) -> (message: String)
    ensures
        message@ == not_found(id.0@),
{
    let mut message: String = "Task not found: ".to_string();
    message.append(id.0.as_str());
    message
}

// ─── Laws ────────────────────────────────────────────────────────────────────

/// Pausing an active task and resuming it queues it; nothing else of the task,
/// and no other task, is touched.
pub proof fn pause_then_resume_requeues(m: Map<Seq<char>, EntryView>, id: Seq<char>)
    requires
        m.contains_key(id),
        m[id].task.state.active(),
    ensures
        resumed(paused(m, id), id) == with_task(m, id, in_state(m[id].task, StateView::Queued)),
        forall|k: Seq<char>|
            k != id ==> (#[trigger] resumed(paused(m, id), id).contains_key(k) <==> m.contains_key(
                k,
            )) && resumed(paused(m, id), id)[k] == m[k],
{
    assert(resumed(paused(m, id), id) =~= with_task(
        m,
        id,
        in_state(m[id].task, StateView::Queued),
    ));
}

/// Only an active task can be paused, and only a paused one resumed.
pub proof fn other_states_are_left_alone(m: Map<Seq<char>, EntryView>, id: Seq<char>)
    ensures
        m.contains_key(id) && !m[id].task.state.active() ==> paused(m, id) == m,
        m.contains_key(id) && !(m[id].task.state is Paused) ==> resumed(m, id) == m,
        !m.contains_key(id) ==> paused(m, id) == m && resumed(m, id) == m,
{
}

/// The entry of a saved task after it is restored into an empty registry.
pub open spec fn revived(e: EntryView) -> EntryView {
    EntryView { task: requeued(e.task), progress: None }
}

/// Saving and restoring brings every task back as it was, under its identifier,
/// except that interrupted downloads are queued again.
pub proof fn restoring_brings_back_what_was_saved(
    m: Map<Seq<char>, EntryView>,
    keys: Seq<Seq<char>>,
)
    requires
        keyed(m),
        lists(keys, m),
    ensures
        restored(no_entries(), tasks_at(m, keys)) == m.map_values(|e: EntryView| revived(e)),
{
    let back = restored(no_entries(), tasks_at(m, keys));
    lemma_restored(m, keys, keys.len() as int);
    assert(tasks_at(m, keys).take(keys.len() as int) =~= tasks_at(m, keys));
    assert forall|k: Seq<char>| back.contains_key(k) <==> m.contains_key(k) by {
        assert(keys.to_set().contains(k) <==> keys.contains(k));
        if m.contains_key(k) {
            let i = choose|i: int| 0 <= i < keys.len() && keys[i] == k;
            assert(back.contains_key(keys[i]));
        }
    }
    assert forall|k: Seq<char>| m.contains_key(k) implies back[k] == revived(m[k]) by {
        assert(keys.to_set().contains(k));
        let i = choose|i: int| 0 <= i < keys.len() && keys[i] == k;
        assert(back[keys[i]] == revived(m[keys[i]]));
    }
    assert(back =~= m.map_values(|e: EntryView| revived(e)));
}

proof fn lemma_restored(m: Map<Seq<char>, EntryView>, keys: Seq<Seq<char>>, n: int)
    requires
        keyed(m),
        lists(keys, m),
        0 <= n <= keys.len(),
    ensures
        ({
            let back = restored(no_entries(), tasks_at(m, keys).take(n));
            &&& forall|i: int|
                0 <= i < n ==> back.contains_key(#[trigger] keys[i]) && back[keys[i]] == revived(
                    m[keys[i]],
                )
            &&& forall|k: Seq<char>| #[trigger]
                back.contains_key(k) ==> exists|i: int| 0 <= i < n && #[trigger] keys[i] == k
        }),
    decreases n,
{
    if n > 0 {
        lemma_restored(m, keys, n - 1);
        let tasks = tasks_at(m, keys);
        let k = keys[n - 1];
        assert(keys.to_set().contains(k));
        assert(tasks.take(n).drop_last() =~= tasks.take(n - 1));
        assert(tasks.take(n).last() == m[k].task);
        let before = restored(no_entries(), tasks.take(n - 1));
        assert(!before.contains_key(k)) by {
            if before.contains_key(k) {
                let i = choose|i: int| 0 <= i < n - 1 && #[trigger] keys[i] == k;
                assert(keys[i] != keys[n - 1]);
            }
        }
        let back = restored(no_entries(), tasks.take(n));
        assert(back == with_task(before, k, requeued(m[k].task)));
        assert forall|i: int| 0 <= i < n implies back.contains_key(#[trigger] keys[i])
            && back[keys[i]] == revived(m[keys[i]]) by {
            if i < n - 1 {
                assert(keys[i] != keys[n - 1]);
            }
        }
        assert forall|x: Seq<char>| #[trigger] back.contains_key(x) implies exists|i: int|
            0 <= i < n && #[trigger] keys[i] == x by {
            if x == k {
                assert(keys[n - 1] == x);
            } else {
                assert(before.contains_key(x));
                let i = choose|i: int| 0 <= i < n - 1 && #[trigger] keys[i] == x;
                assert(keys[i] == x);
            }
        }
    }
}

/// The registry learns of a probed file what is to be shown and saved of it: its
/// size, whether ranges can be asked for, its validators, its path and the chunks
/// to resume; later reports show the remaining time by that size.
pub proof fn a_probed_file_is_remembered(
    e: EntryView,
    id: Seq<char>,
    found: FoundView,
    downloaded: u64,
    speed_bps: u64,
    connections: usize,
    now: Timestamp,
)
    ensures
        ({
            let probed = noted(e, id, EventView::Found(found), now);
            let progress = EventView::Progress { downloaded, speed_bps, connections };
            let shown = noted(probed, id, progress, now).progress->0->0;
            &&& probed.task.total_bytes == found.total_bytes
            &&& probed.task.etag == found.etag
            &&& probed.task.last_modified == found.last_modified
            &&& probed.task.chunk_map == found.chunk_map
            &&& shown.total_bytes == found.total_bytes
            &&& shown.eta_secs == speed::eta_of(found.total_bytes, downloaded, speed_bps)
        }),
{
}

/// A completed or failed download's task is at rest: neither a pause nor a
/// resume changes it, and it is restored as it was saved.
pub proof fn finished_tasks_stay_finished(m: Map<Seq<char>, EntryView>, id: Seq<char>)
    requires
        m.contains_key(id),
        m[id].task.state.terminal(),
    ensures
        paused(m, id) == m,
        resumed(m, id) == m,
        requeued(m[id].task) == m[id].task,
{
}

/// Only the one task changes.
pub open spec fn only_changes(
    before: Map<Seq<char>, EntryView>,
    after: Map<Seq<char>, EntryView>,
    id: Seq<char>,
) -> bool {
    forall|k: Seq<char>|
        k != id ==> (#[trigger] after.contains_key(k) <==> before.contains_key(k)) && (
        before.contains_key(k) ==> after[k] == before[k])
}

/// A task that is put into the registry stands there under its identifier, with the
/// progress that was there before; no other task is touched.
pub proof fn a_task_is_put_under_its_identifier(
    m: Map<Seq<char>, EntryView>,
    id: Seq<char>,
    t: TaskView,
)
    ensures
        ({
            let after = with_task(m, id, t);
            &&& after.contains_key(id)
            &&& after[id].task == t
            &&& m.contains_key(id) ==> after[id].progress == m[id].progress
            &&& !m.contains_key(id) ==> after[id].progress is None
            &&& only_changes(m, after, id)
        }),
{
}

/// A pause stops an active task, and a resume queues a paused one; nothing but the state
/// changes, and in any other state nothing at all.
pub proof fn pauses_and_resumes_change_the_state(m: Map<Seq<char>, EntryView>, id: Seq<char>)
    requires
        m.contains_key(id),
    ensures
        ({
            let state = m[id].task.state;
            let active = state is Active || state is Probing || state is Assembling;
            let after = paused(m, id);
            &&& only_changes(m, after, id)
            &&& after.contains_key(id)
            &&& after[id].progress == m[id].progress
            &&& after[id].task == (TaskView { state: after[id].task.state, ..m[id].task })
            &&& active ==> after[id].task.state is Paused
            &&& !active ==> after == m
        }),
        ({
            let after = resumed(m, id);
            &&& only_changes(m, after, id)
            &&& after.contains_key(id)
            &&& after[id].progress == m[id].progress
            &&& after[id].task == (TaskView { state: after[id].task.state, ..m[id].task })
            &&& m[id].task.state is Paused ==> after[id].task.state is Queued
            &&& !(m[id].task.state is Paused) ==> after == m
        }),
        forall|k: Seq<char>| !m.contains_key(k) ==> paused(m, k) == m && #[trigger] resumed(m, k) == m,
{
}

/// A task that begins is being probed, since that moment and with no progress; nothing
/// else of it changes, and no other task.
pub proof fn a_task_that_begins_is_probed(
    m: Map<Seq<char>, EntryView>,
    id: Seq<char>,
    now: Timestamp,
)
    ensures
        !m.contains_key(id) ==> begun(m, id, now) == m,
        m.contains_key(id) ==> {
            let after = begun(m, id, now);
            &&& only_changes(m, after, id)
            &&& after.contains_key(id)
            &&& after[id].progress == Some(None::<ProgressView>)
            &&& after[id].task.state is Probing
            &&& after[id].task.started_at == Some(now)
            &&& after[id].task == (TaskView {
                state: after[id].task.state,
                started_at: after[id].task.started_at,
                ..m[id].task
            })
        },
{
}

/// Each event of a download is noted for what it says: what was found, how far the chunks
/// are, the new state, the progress with the time that is left, the file of a complete
/// download, or the error of a failed one. Everything else of the task stays.
pub proof fn events_are_noted_for_what_they_say(
    e: EntryView,
    id: Seq<char>,
    event: SchedulerEvent,
    now: Timestamp,
)
    ensures
        ({
            let after = noted(e, id, event@, now);
            let t = e.task;
            let u = after.task;
            &&& u.id == t.id && u.urls == t.urls && u.options == t.options
            &&& u.created_at == t.created_at && u.started_at == t.started_at
            &&& !(event is Progress) ==> after.progress == e.progress
            &&& match event {
                SchedulerEvent::Found(found) => {
                    &&& u.total_bytes == found.total_bytes
                    &&& u.accepts_ranges == found.accepts_ranges
                    &&& u.etag == text::opt(found.etag)
                    &&& u.last_modified == text::opt(found.last_modified)
                    &&& u.output_path == Some(found.output_path.bytes@)
                    &&& found.chunk_map is None ==> u.chunk_map is None
                    &&& found.chunk_map matches Some(map) ==> u.chunk_map == Some(map.chunks@)
                    &&& u.state == t.state && u.completed_at == t.completed_at
                    &&& u.error_message == t.error_message
                },
                SchedulerEvent::Chunks(map) => u == (TaskView {
                    chunk_map: Some(map.chunks@),
                    ..t
                }),
                SchedulerEvent::StateChange(state) => u == (TaskView { state: state@, ..t }),
                SchedulerEvent::Progress { downloaded, speed_bps, connections } => {
                    &&& u == t
                    &&& after.progress is Some && after.progress->0 is Some
                    &&& after.progress->0->0.task_id == id
                    &&& after.progress->0->0.state == t.state
                    &&& after.progress->0->0.total_bytes == t.total_bytes
                    &&& after.progress->0->0.downloaded_bytes == downloaded
                    &&& after.progress->0->0.speed_bps == speed_bps
                    &&& after.progress->0->0.connections == connections
                    &&& after.progress->0->0.eta_secs == speed::eta_of(
                        t.total_bytes,
                        downloaded,
                        speed_bps,
                    )
                },
                SchedulerEvent::Complete { output_path } => u == (TaskView {
                    state: StateView::Complete,
                    output_path: Some(output_path.bytes@),
                    completed_at: Some(now),
                    ..t
                }),
                SchedulerEvent::Error(message) => u == (TaskView {
                    state: StateView::Error(message@),
                    error_message: Some(message@),
                    ..t
                }),
            }
        }),
{
}

/// A restored task is as it was saved, except that one that was at work is queued again.
/// Of several with one identifier the last stands; and those that were at work are the
/// ones to start again, in their order.
pub proof fn restoring_one_more_task(
    m: Map<Seq<char>, EntryView>,
    tasks: Seq<TaskView>,
    t: TaskView,
)
    ensures
        restored(m, Seq::empty()) == m,
        interrupted(Seq::empty()) == Seq::<Seq<char>>::empty(),
        ({
            let before = restored(m, tasks);
            let after = restored(m, tasks.push(t));
            let active = t.state is Active || t.state is Probing || t.state is Assembling;
            &&& only_changes(before, after, t.id)
            &&& after.contains_key(t.id)
            &&& active ==> after[t.id].task == (TaskView { state: StateView::Queued, ..t })
            &&& !active ==> after[t.id].task == t
            &&& before.contains_key(t.id) ==> after[t.id].progress == before[t.id].progress
            &&& !before.contains_key(t.id) ==> after[t.id].progress is None
            &&& active ==> interrupted(tasks.push(t)) == interrupted(tasks).push(t.id)
            &&& !active ==> interrupted(tasks.push(t)) == interrupted(tasks)
        }),
{
    reveal(Seq::filter);
    let all = tasks.push(t);
    assert(all.drop_last() =~= tasks);
    let active = |t: TaskView| t.state.active();
    let id_of = |t: TaskView| t.id;
    let kept = tasks.filter(active);
    assert(interrupted(Seq::empty()) =~= Seq::<Seq<char>>::empty());
    if t.state.active() {
        assert(all.filter(active) == kept.push(t));
        assert(kept.push(t).map_values(id_of) =~= kept.map_values(id_of).push(t.id));
    } else {
        assert(all.filter(active) == kept);
    }
}

/// The progress of a task is the latest report of it: none of a task that is not there or
/// did not run yet.
pub proof fn progress_is_the_latest_report(m: Map<Seq<char>, EntryView>, id: Seq<char>)
    ensures
        !m.contains_key(id) ==> progress_of(m, id) is None && latest_of(m, id) is None,
        m.contains_key(id) ==> progress_of(m, id) == m[id].progress,
        m.contains_key(id) && m[id].progress is Some ==> latest_of(m, id) == m[id].progress->0,
        m.contains_key(id) && m[id].progress is None ==> latest_of(m, id) is None,
{
}

/// A listing has every task once: each key of the registry occurs, none twice, and no
/// other; the tasks and entries listed are those under the keys.
pub proof fn a_listing_has_every_task_once(m: Map<Seq<char>, EntryView>, keys: Seq<Seq<char>>)
    ensures
        lists(keys, m) <==> {
            &&& forall|i: int, j: int|
                0 <= i < j < keys.len() ==> #[trigger] keys[i] != #[trigger] keys[j]
            &&& forall|i: int| 0 <= i < keys.len() ==> m.contains_key(#[trigger] keys[i])
            &&& forall|k: Seq<char>| #[trigger]
                m.contains_key(k) ==> exists|i: int| 0 <= i < keys.len() && #[trigger] keys[i] == k
        },
        tasks_at(m, keys).len() == keys.len(),
        entries_at(m, keys).len() == keys.len(),
        forall|i: int|
            0 <= i < keys.len() ==> #[trigger] tasks_at(m, keys)[i] == m[keys[i]].task,
        forall|i: int| 0 <= i < keys.len() ==> #[trigger] entries_at(m, keys)[i] == m[keys[i]],
{
    if lists(keys, m) {
        assert forall|i: int| 0 <= i < keys.len() implies m.contains_key(#[trigger] keys[i]) by {
            assert(keys.to_set().contains(keys[i]));
        }
        assert forall|k: Seq<char>| #[trigger] m.contains_key(k) implies exists|i: int|
            0 <= i < keys.len() && #[trigger] keys[i] == k by {
            assert(keys.to_set().contains(k));
            let i = choose|i: int| 0 <= i < keys.len() && keys[i] == k;
            assert(keys[i] == k);
        }
    }
    if (forall|i: int, j: int|
        0 <= i < j < keys.len() ==> #[trigger] keys[i] != #[trigger] keys[j]) && (forall|i: int|
        0 <= i < keys.len() ==> m.contains_key(#[trigger] keys[i])) && (forall|k: Seq<char>|
        #[trigger]
        m.contains_key(k) ==> exists|i: int| 0 <= i < keys.len() && #[trigger] keys[i] == k) {
        assert(keys.no_duplicates());
        assert forall|k: Seq<char>| keys.to_set().contains(k) <==> m.dom().contains(k) by {
            if keys.to_set().contains(k) {
                let i = choose|i: int| 0 <= i < keys.len() && keys[i] == k;
                assert(m.contains_key(keys[i]));
            }
            if m.contains_key(k) {
                let i = choose|i: int| 0 <= i < keys.len() && #[trigger] keys[i] == k;
                assert(keys.contains(k));
            }
        }
        assert(keys.to_set() =~= m.dom());
    }
}

/// The tasks that wait for a slot are the queued ones, each in its place among the keys.
pub proof fn queued_tasks_wait_for_a_slot(
    m: Map<Seq<char>, EntryView>,
    keys: Seq<Seq<char>>,
    k: Seq<char>,
)
    ensures
        queued_keys(m, Seq::empty()) == Seq::<Seq<char>>::empty(),
        m[k].task.state is Queued ==> queued_keys(m, keys.push(k)) == queued_keys(m, keys).push(k),
        !(m[k].task.state is Queued) ==> queued_keys(m, keys.push(k)) == queued_keys(m, keys),
        forall|ids: Seq<TaskId>, i: int|
            0 <= i < ids.len() ==> #[trigger] each_id(ids)[i] == ids[i].0@,
        forall|ids: Seq<TaskId>| (#[trigger] each_id(ids)).len() == ids.len(),
{
    reveal(Seq::filter);
    assert(keys.push(k).drop_last() =~= keys);
    assert(queued_keys(m, Seq::empty()) =~= Seq::<Seq<char>>::empty());
}

/// Every task stands under its own identifier exactly if none stands under another's; and
/// what is said of an identifier that is not known names it.
pub proof fn unknown_identifiers_are_named(m: Map<Seq<char>, EntryView>, id: Seq<char>)
    ensures
        keyed(m) <==> !(exists|k: Seq<char>| #[trigger] m.contains_key(k) && m[k].task.id != k),
        not_found(id) == "Task not found: "@ + id,
{
}

} // verus!
