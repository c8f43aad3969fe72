//! Download tasks: identity, lifecycle state, options and progress.

use crate::engine::chunk::{Chunk, ChunkMap};
use crate::engine::urls;
use crate::path;
use crate::path::FilePath;
use crate::text;
use vstd::prelude::*;

verus! {

// ─── Identity and time ───────────────────────────────────────────────────────

/// Opaque unique identifier for a download task.
#[derive(Debug, PartialEq, Eq, Hash)]
pub struct TaskId(pub String);

impl Clone for TaskId {
    fn clone(&self) -> (copy: Self)
        ensures
            copy == *self,
    {
        TaskId(self.0.clone())
    }
}

/// A lower-case hexadecimal digit.
pub open spec fn is_hex(c: char) -> bool {
    48 <= c as u32 <= 57 || 97 <= c as u32 <= 102
}

/// The text form of a random (version 4) UUID: 36 characters, hyphens at four
/// fixed places, lower-case hexadecimal digits elsewhere, the version digit and
/// the variant digit in theirs.
pub open spec fn is_gid(s: Seq<char>) -> bool {
    &&& s.len() == 36
    &&& s[8] == '-' && s[13] == '-' && s[18] == '-' && s[23] == '-'
    &&& forall|i: int|
        0 <= i < 36 && i != 8 && i != 13 && i != 18 && i != 23 ==> is_hex(#[trigger] s[i])
    &&& s[14] == '4'
    &&& (s[19] == '8' || s[19] == '9' || s[19] == 'a' || s[19] == 'b')
}

/// `uuid::Uuid::new_v4`, in its text form (`Display`, hyphenated lower case).
/// The digits are random, so only the form is claimed. It panics where the
/// operating system gives no random numbers.
#[verifier::external_body]
fn random_gid() -> (gid: String)
    ensures
        is_gid(gid@),
{
    uuid::Uuid::new_v4().to_string()
}

impl TaskId {
    pub fn new() -> (id: Self)
        ensures
            is_gid(id.0@),
    {
        TaskId(random_gid())
    }

    /// The identifier as text.
    pub fn to_string(&self) -> (s: String)
        ensures
            s@ == self.0@,
    {
        self.0.clone()
    }
}

/// A moment in UTC: seconds since 1970 and nanoseconds within the second (up to
/// two seconds' worth in a leap second).
#[derive(Debug, Clone, Copy, PartialEq, Eq, Structural)]
pub struct Timestamp {
    pub secs: i64,
    pub nanos: u32,
}

/// `chrono::Utc::now`, taken apart by `DateTime::timestamp` and
/// `DateTime::timestamp_subsec_nanos`. The moment itself depends on the clock;
/// the nanoseconds stay below two seconds. It panics where the system's clock
/// is set before 1970.
#[verifier::external_body]
pub(crate) fn utc_now() -> (now: Timestamp)
    ensures
        now.nanos < 2000000000,
{
    let now = chrono::Utc::now();
    Timestamp { secs: now.timestamp(), nanos: now.timestamp_subsec_nanos() }
}

// ─── Lifecycle ───────────────────────────────────────────────────────────────

/// A lifecycle state, with the error's text in view.
pub enum StateView {
    Queued,
    Probing,
    Active,
    Paused,
    Assembling,
    Complete,
    Error(Seq<char>),
}

impl StateView {
    pub open spec fn terminal(self) -> bool {
        self is Complete || self is Error
    }

    pub open spec fn active(self) -> bool {
        self is Active || self is Probing || self is Assembling
    }

    /// Queued, or paused by the user.
    pub open spec fn waiting(self) -> bool {
        self is Queued || self is Paused
    }
}

/// Lifecycle state of a download task, modelled as an explicit state machine.
#[derive(Debug, PartialEq, Eq)]
pub enum DownloadState {
    /// Waiting for a worker slot
    Queued,
    /// Probing headers (Content-Length, Accept-Ranges, ETag)
    Probing,
    /// Actively downloading
    Active,
    /// Paused by user or scheduler
    Paused,
    /// All chunks complete, assembling file
    Assembling,
    /// Download finished successfully
    Complete,
    /// Unrecoverable error
    Error(String),
}

impl View for DownloadState {
    type V = StateView;

    open spec fn view(&self) -> StateView {
        match *self {
            DownloadState::Queued => StateView::Queued,
            DownloadState::Probing => StateView::Probing,
            DownloadState::Active => StateView::Active,
            DownloadState::Paused => StateView::Paused,
            DownloadState::Assembling => StateView::Assembling,
            DownloadState::Complete => StateView::Complete,
            DownloadState::Error(e) => StateView::Error(e@),
        }
    }
}

impl Clone for DownloadState {
    fn clone(&self) -> (copy: Self)
        ensures
            copy == *self,
    {
        match self {
            DownloadState::Queued => DownloadState::Queued,
            DownloadState::Probing => DownloadState::Probing,
            DownloadState::Active => DownloadState::Active,
            DownloadState::Paused => DownloadState::Paused,
            DownloadState::Assembling => DownloadState::Assembling,
            DownloadState::Complete => DownloadState::Complete,
            DownloadState::Error(e) => DownloadState::Error(e.clone()),
        }
    }
}

impl DownloadState {
    pub fn is_terminal(&self) -> (r: bool)
        ensures
            r == self@.terminal(),
    {
        matches!(self, DownloadState::Complete | DownloadState::Error(_))
    }

    pub fn is_active(&self) -> (r: bool)
        ensures
            r == self@.active(),
    {
        matches!(self, DownloadState::Active | DownloadState::Probing | DownloadState::Assembling)
    }

    /// Queued or paused: the task is waiting to run.
    pub fn is_waiting(&self) -> (r: bool)
        ensures
            r == self@.waiting(),
    {
        matches!(self, DownloadState::Queued | DownloadState::Paused)
    }
}

// ─── Options ─────────────────────────────────────────────────────────────────

#[derive(Debug, Clone, Copy, PartialEq, Eq, Structural)]
pub enum ChecksumAlgo {
    Sha256,
    Sha1,
    Md5,
}

/// A checksum, with its text in view.
pub struct ChecksumView {
    pub algorithm: ChecksumAlgo,
    pub value: Seq<char>,
}

/// Integrity verification spec.
#[derive(Debug)]
pub struct Checksum {
    pub algorithm: ChecksumAlgo,
    pub value: String,
}

impl View for Checksum {
    type V = ChecksumView;

    open spec fn view(&self) -> ChecksumView {
        ChecksumView { algorithm: self.algorithm, value: self.value@ }
    }
}

impl Clone for Checksum {
    fn clone(&self) -> (copy: Self)
        ensures
            copy == *self,
    {
        Checksum { algorithm: self.algorithm, value: self.value.clone() }
    }
}

/// Task options, with all text in view.
pub struct OptionsView {
    pub max_connections: Option<usize>,
    pub split: Option<usize>,
    pub sequential: bool,
    pub out: Option<Seq<char>>,
    pub dir: Option<Seq<u8>>,
    pub checksum: Option<ChecksumView>,
    pub max_speed: u64,
    pub headers: Seq<(Seq<char>, Seq<char>)>,
    pub referer: Option<Seq<char>>,
    pub user_agent: Option<Seq<char>>,
}

/// Options that can be set per-task, overriding engine defaults.
#[derive(Debug)]
pub struct TaskOptions {
    /// Override max connections for the download
    pub max_connections: Option<usize>,
    /// Override split count
    pub split: Option<usize>,
    /// Sequential (streaming) mode: download chunks in order
    pub sequential: bool,
    /// Custom output filename
    pub out: Option<String>,
    /// Custom output directory
    pub dir: Option<FilePath>,
    /// Expected checksum for integrity verification
    pub checksum: Option<Checksum>,
    /// Max download speed for the download (bytes/sec). 0 = inherit global.
    pub max_speed: u64,
    /// HTTP headers to send
    pub headers: Vec<(String, String)>,
    /// HTTP referer
    pub referer: Option<String>,
    /// User-Agent override
    pub user_agent: Option<String>,
}

impl View for TaskOptions {
    type V = OptionsView;

    open spec fn view(&self) -> OptionsView {
        OptionsView {
            max_connections: self.max_connections,
            split: self.split,
            sequential: self.sequential,
            out: text::opt(self.out),
            dir: path::opt(self.dir),
            checksum: match self.checksum {
                Some(c) => Some(c@),
                None => None,
            },
            max_speed: self.max_speed,
            headers: text::each_pair(self.headers@),
            referer: text::opt(self.referer),
            user_agent: text::opt(self.user_agent),
        }
    }
}

/// Nothing set.
pub open spec fn no_options() -> OptionsView {
    OptionsView {
        max_connections: None,
        split: None,
        sequential: false,
        out: None,
        dir: None,
        checksum: None,
        max_speed: 0,
        headers: Seq::empty(),
        referer: None,
        user_agent: None,
    }
}

impl Default for TaskOptions {
    fn default() -> (options: Self)
        ensures
            options@ == no_options(),
    {
        let options = TaskOptions {
            max_connections: None,
            split: None,
            sequential: false,
            out: None,
            dir: None,
            checksum: None,
            max_speed: 0,
            headers: Vec::new(),
            referer: None,
            user_agent: None,
        };
        assert(options@.headers =~= Seq::empty());
        options
    }
}

impl Clone for TaskOptions {
    fn clone(&self) -> (copy: Self)
        ensures
            copy@ == self@,
    {
        TaskOptions {
            max_connections: self.max_connections,
            split: self.split,
            sequential: self.sequential,
            out: self.out.clone(),
            dir: path::copy_opt(&self.dir),
            checksum: self.checksum.clone(),
            max_speed: self.max_speed,
            headers: text::copy_pairs(&self.headers),
            referer: self.referer.clone(),
            user_agent: self.user_agent.clone(),
        }
    }
}

// ─── Progress ────────────────────────────────────────────────────────────────

#[derive(Debug, Clone, Copy)]
pub struct ChunkProgress {
    pub index: usize,
    pub start: u64,
    pub end: u64,
    pub downloaded: u64,
    pub speed_bps: u64,
    pub worker_id: Option<usize>,
}

/// Progress, with all text in view.
pub struct ProgressView {
    pub task_id: Seq<char>,
    pub state: StateView,
    pub total_bytes: Option<u64>,
    pub downloaded_bytes: u64,
    pub speed_bps: u64,
    pub eta_secs: Option<u64>,
    pub connections: usize,
    pub chunk_progress: Seq<ChunkProgress>,
}

/// Live snapshot of download progress (cheap to clone, sent over RPC).
#[derive(Debug)]
pub struct DownloadProgress {
    pub task_id: TaskId,
    pub state: DownloadState,
    pub total_bytes: Option<u64>,
    pub downloaded_bytes: u64,
    pub speed_bps: u64,
    pub eta_secs: Option<u64>,
    pub connections: usize,
    pub chunk_progress: Vec<ChunkProgress>,
}

impl View for DownloadProgress {
    type V = ProgressView;

    open spec fn view(&self) -> ProgressView {
        ProgressView {
            task_id: self.task_id.0@,
            state: self.state@,
            total_bytes: self.total_bytes,
            downloaded_bytes: self.downloaded_bytes,
            speed_bps: self.speed_bps,
            eta_secs: self.eta_secs,
            connections: self.connections,
            chunk_progress: self.chunk_progress@,
        }
    }
}

impl Clone for DownloadProgress {
    fn clone(&self) -> (copy: Self)
        ensures
            copy@ == self@,
    {
        let chunk_progress = self.chunk_progress.clone();
        assert(chunk_progress@ =~= self.chunk_progress@);
        DownloadProgress {
            task_id: self.task_id.clone(),
            state: self.state.clone(),
            total_bytes: self.total_bytes,
            downloaded_bytes: self.downloaded_bytes,
            speed_bps: self.speed_bps,
            eta_secs: self.eta_secs,
            connections: self.connections,
            chunk_progress,
        }
    }
}

/// Optional progress, with all text in view.
pub open spec fn progress_view(p: Option<DownloadProgress>) -> Option<ProgressView> {
    match p {
        Some(p) => Some(p@),
        None => None,
    }
}

/// A copy of optional progress.
pub fn copy_progress(p: &Option<DownloadProgress>) -> (copy: Option<DownloadProgress>)
    ensures
        progress_view(copy) == progress_view(*p),
{
    match p {
        Some(p) => Some(p.clone()),
        None => None,
    }
}

// ─── Tasks ───────────────────────────────────────────────────────────────────

/// A task, with all text in view.
pub struct TaskView {
    pub id: Seq<char>,
    pub urls: Seq<Seq<char>>,
    pub state: StateView,
    pub options: OptionsView,
    pub output_path: Option<Seq<u8>>,
    pub total_bytes: Option<u64>,
    pub accepts_ranges: bool,
    pub etag: Option<Seq<char>>,
    pub last_modified: Option<Seq<char>>,
    pub chunk_map: Option<Seq<Chunk>>,
    pub created_at: Timestamp,
    pub started_at: Option<Timestamp>,
    pub completed_at: Option<Timestamp>,
    pub error_message: Option<Seq<char>>,
}

/// Full task descriptor, persisted to the session file.
#[derive(Debug)]
pub struct DownloadTask {
    pub id: TaskId,
    /// Primary URL + mirror list
    pub urls: Vec<String>,
    pub state: DownloadState,
    pub options: TaskOptions,
    /// Final resolved output path
    pub output_path: Option<FilePath>,
    /// Server-reported content length (None if unknown)
    pub total_bytes: Option<u64>,
    /// Whether server supports range requests
    pub accepts_ranges: bool,
    /// ETag / Last-Modified for resumption
    pub etag: Option<String>,
    pub last_modified: Option<String>,
    /// Chunk state (for resumption)
    pub chunk_map: Option<ChunkMap>,
    pub created_at: Timestamp,
    pub started_at: Option<Timestamp>,
    pub completed_at: Option<Timestamp>,
    pub error_message: Option<String>,
}

impl View for DownloadTask {
    type V = TaskView;

    open spec fn view(&self) -> TaskView {
        TaskView {
            id: self.id.0@,
            urls: text::each(self.urls@),
            state: self.state@,
            options: self.options@,
            output_path: path::opt(self.output_path),
            total_bytes: self.total_bytes,
            accepts_ranges: self.accepts_ranges,
            etag: text::opt(self.etag),
            last_modified: text::opt(self.last_modified),
            chunk_map: match self.chunk_map {
                Some(map) => Some(map.chunks@),
                None => None,
            },
            created_at: self.created_at,
            started_at: self.started_at,
            completed_at: self.completed_at,
            error_message: text::opt(self.error_message),
        }
    }
}

impl Clone for DownloadTask {
    fn clone(&self) -> (copy: Self)
        ensures
            copy@ == self@,
    {
        DownloadTask {
            id: self.id.clone(),
            urls: text::copy_strings(&self.urls),
            state: self.state.clone(),
            options: self.options.clone(),
            output_path: path::copy_opt(&self.output_path),
            total_bytes: self.total_bytes,
            accepts_ranges: self.accepts_ranges,
            etag: self.etag.clone(),
            last_modified: self.last_modified.clone(),
            chunk_map: match &self.chunk_map {
                Some(map) => Some(map.clone()),
                None => None,
            },
            created_at: self.created_at,
            started_at: self.started_at,
            completed_at: self.completed_at,
            error_message: self.error_message.clone(),
        }
    }
}

/// Each task, with all text in view.
pub open spec fn each_task(tasks: Seq<DownloadTask>) -> Seq<TaskView> {
    tasks.map_values(|t: DownloadTask| t@)
}

/// A task that was just queued.
pub open spec fn queued_task(
    id: Seq<char>,
    urls: Seq<Seq<char>>,
    options: OptionsView,
    created_at: Timestamp,
) -> TaskView {
    TaskView {
        id,
        urls,
        state: StateView::Queued,
        options,
        output_path: None,
        total_bytes: None,
        accepts_ranges: false,
        etag: None,
        last_modified: None,
        chunk_map: None,
        created_at,
        started_at: None,
        completed_at: None,
        error_message: None,
    }
}

/// The file name that the last path segment gives; `download` where there is
/// none or it is empty.
pub open spec fn filename_of(segments: Option<Seq<Seq<char>>>) -> Seq<char> {
    match segments {
        Some(s) => if s.len() > 0 && s.last().len() > 0 {
            s.last()
        } else {
            "download"@
        },
        None => "download"@,
    }
}

/// The file name that a URL's path segments give.
pub fn filename_from_segments(segments: &Option<Vec<String>>) -> (name: String)
    ensures
        name@ == filename_of(
            match *segments {
                Some(s) => Some(text::each(s@)),
                None => None,
            },
        ),
{
    match segments {
        Some(s) => {
            if s.len() > 0 {
                assert(text::each(s@).last() == s@.last()@);
                let last: &String = &s[s.len() - 1];
                if !last.as_str().is_empty() {
                    return last.clone();
                }
            }
            "download".to_string()
        },
        None => "download".to_string(),
    }
}

impl DownloadTask {
    pub fn new(urls: Vec<String>, options: TaskOptions) -> (task: Self)
        ensures
            is_gid(task@.id),
            task@ == queued_task(task@.id, text::each(urls@), options@, task@.created_at),
    {
        let id = TaskId::new();
        let now = utc_now();
        DownloadTask::queued(id, urls, options, now)
    }

    /// A queued task with the given identifier and creation time.
    pub fn queued(
        id: TaskId,
        urls: Vec<String>,
        options: TaskOptions,
        created_at: Timestamp,
    ) -> (task: Self)
        ensures
            task@ == queued_task(id.0@, text::each(urls@), options@, created_at),
    {
        DownloadTask {
            id,
            urls,
            state: DownloadState::Queued,
            options,
            output_path: None,
            total_bytes: None,
            accepts_ranges: false,
            etag: None,
            last_modified: None,
            chunk_map: None,
            created_at,
            started_at: None,
            completed_at: None,
            error_message: None,
        }
    }

    pub fn primary_url(&self) -> (url: &String)
        requires
            self.urls@.len() > 0,
        ensures
            *url == self.urls@[0],
    {
        &self.urls[0]
    }

    /// The output name that the task asks for, or else the one its primary URL
    /// gives.
    pub fn infer_filename(&self) -> (name: String)
        requires
            self@.options.out is None ==> self.urls@.len() > 0,
        ensures
            name@ == (match self@.options.out {
                Some(out) => out,
                None => filename_of(urls::segments_of(self@.urls[0])),
            }),
    {
        match &self.options.out {
            Some(out) => out.clone(),
            None => {
                let segments = urls::path_segments(self.primary_url().as_str());
                filename_from_segments(&segments)
            },
        }
    }
}

/// A task is active while it is probed, downloaded or assembled, waiting while it is
/// queued or paused, and over once it is complete or failed.
pub proof fn states_are_active_waiting_or_over(state: DownloadState)
    ensures
        state@.active() <==> state is Probing || state is Active || state is Assembling,
        state@.waiting() <==> state is Queued || state is Paused,
        state@.terminal() <==> state is Complete || state is Error,
        state matches DownloadState::Error(e) ==> state@ == StateView::Error(e@),
{
}

/// States are told apart by their views.
pub proof fn states_are_seen_as_they_are(a: DownloadState, b: DownloadState)
    requires
        a@ == b@,
    ensures
        a is Queued <==> b is Queued,
        a is Probing <==> b is Probing,
        a is Active <==> b is Active,
        a is Paused <==> b is Paused,
        a is Assembling <==> b is Assembling,
        a is Complete <==> b is Complete,
        a is Error <==> b is Error,
        a is Error ==> a->Error_0@ == b->Error_0@,
{
}

/// Options with the same view ask for the same.
pub proof fn options_are_seen_whole(a: TaskOptions, b: TaskOptions)
    requires
        a@ == b@,
    ensures
        a.max_connections == b.max_connections,
        a.split == b.split,
        a.sequential == b.sequential,
        a.max_speed == b.max_speed,
        text::opt(a.out) == text::opt(b.out),
        a.dir is Some <==> b.dir is Some,
        a.dir is Some ==> a.dir->0.bytes@ == b.dir->0.bytes@,
        a.checksum is Some <==> b.checksum is Some,
        a.checksum is Some ==> a.checksum->0.algorithm == b.checksum->0.algorithm
            && a.checksum->0.value@ == b.checksum->0.value@,
        a.headers@.len() == b.headers@.len(),
        forall|i: int|
            0 <= i < a.headers@.len() ==> {
                let x = #[trigger] a.headers@[i];
                let y = b.headers@[i];
                x.0@ == y.0@ && x.1@ == y.1@
            },
        text::opt(a.referer) == text::opt(b.referer),
        text::opt(a.user_agent) == text::opt(b.user_agent),
{
    text::strings_are_seen_by_their_characters(None, Seq::empty(), a.headers@);
    text::strings_are_seen_by_their_characters(None, Seq::empty(), b.headers@);
    assert forall|i: int| 0 <= i < a.headers@.len() implies {
        let x = #[trigger] a.headers@[i];
        let y = b.headers@[i];
        x.0@ == y.0@ && x.1@ == y.1@
    } by {
        assert(text::each_pair(a.headers@)[i] == text::each_pair(b.headers@)[i]);
    }
}

/// Tasks with the same view are the same.
pub proof fn tasks_are_seen_whole(a: DownloadTask, b: DownloadTask)
    requires
        a@ == b@,
    ensures
        a.id.0@ == b.id.0@,
        a.urls@.len() == b.urls@.len(),
        forall|i: int|
            0 <= i < a.urls@.len() ==> (#[trigger] a.urls@[i])@ == b.urls@[i]@,
        a.state@ == b.state@,
        a.options@ == b.options@,
        a.output_path is Some <==> b.output_path is Some,
        a.output_path is Some ==> a.output_path->0.bytes@ == b.output_path->0.bytes@,
        a.total_bytes == b.total_bytes,
        a.accepts_ranges == b.accepts_ranges,
        text::opt(a.etag) == text::opt(b.etag),
        text::opt(a.last_modified) == text::opt(b.last_modified),
        a.chunk_map is Some <==> b.chunk_map is Some,
        a.chunk_map is Some ==> a.chunk_map->0.chunks@ == b.chunk_map->0.chunks@,
        a.created_at == b.created_at,
        a.started_at == b.started_at,
        a.completed_at == b.completed_at,
        text::opt(a.error_message) == text::opt(b.error_message),
{
    text::strings_are_seen_by_their_characters(None, a.urls@, Seq::empty());
    text::strings_are_seen_by_their_characters(None, b.urls@, Seq::empty());
    assert forall|i: int| 0 <= i < a.urls@.len() implies (#[trigger] a.urls@[i])@ == b.urls@[i]@ by {
        assert(text::each(a.urls@)[i] == text::each(b.urls@)[i]);
    }
}

/// A new task is queued with the URLs and options that it was given, and nothing is known
/// or done of it yet.
pub proof fn a_new_task_is_queued(
    id: Seq<char>,
    urls: Seq<Seq<char>>,
    options: OptionsView,
    created_at: Timestamp,
)
    ensures
        ({
            let t = queued_task(id, urls, options, created_at);
            &&& t.id == id
            &&& t.urls == urls
            &&& t.options == options
            &&& t.created_at == created_at
            &&& t.state == StateView::Queued
            &&& t.output_path is None && t.total_bytes is None && t.chunk_map is None
            &&& t.etag is None && t.last_modified is None && !t.accepts_ranges
            &&& t.started_at is None && t.completed_at is None && t.error_message is None
        }),
{
}

/// Options that were not set override nothing.
pub proof fn unset_options_override_nothing()
    ensures
        no_options().max_connections is None,
        no_options().split is None,
        !no_options().sequential,
        no_options().out is None,
        no_options().dir is None,
        no_options().checksum is None,
        no_options().max_speed == 0,
        no_options().headers.len() == 0,
        no_options().referer is None,
        no_options().user_agent is None,
{
}

/// A file is named after the last segment of its URL's path, and is never without a name.
pub proof fn files_are_named_after_the_last_segment(segments: Seq<Seq<char>>)
    ensures
        filename_of(Some(segments)).len() > 0,
        segments.len() > 0 && segments.last().len() > 0 ==> filename_of(Some(segments))
            == segments.last(),
        segments.len() == 0 || segments.last().len() == 0 ==> filename_of(Some(segments))
            == filename_of(None),
        filename_of(None) == "download"@,
{
    reveal_strlit("download");
}

/// Progress is seen whole: of which task, how far it is, how fast, and on how many
/// connections.
pub proof fn progress_is_seen_whole(a: DownloadProgress, b: DownloadProgress)
    requires
        a@ == b@,
    ensures
        ({
            let (p, q) = (a.task_id, b.task_id);
            p.0@ == q.0@
        }),
        a.state@ == b.state@,
        a.total_bytes == b.total_bytes,
        a.downloaded_bytes == b.downloaded_bytes,
        a.speed_bps == b.speed_bps,
        a.eta_secs == b.eta_secs,
        a.connections == b.connections,
        a.chunk_progress@ == b.chunk_progress@,
{
}

/// Tasks are seen one by one, in order.
pub proof fn tasks_are_seen_in_order(tasks: Seq<DownloadTask>)
    ensures
        each_task(tasks).len() == tasks.len(),
        forall|i: int| 0 <= i < tasks.len() ==> #[trigger] each_task(tasks)[i] == tasks[i]@,
{
}

} // verus!
