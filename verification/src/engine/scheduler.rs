//! The lifecycle of one download: probe, plan, allocate, download, verify.
//!
//! The scheduler decides; whoever drives it performs each action and hands back
//! what came of it.

use crate::engine::checksum;
use crate::engine::chunk;
use crate::engine::chunk::{Chunk, ChunkMap, ChunkState};
use crate::engine::config::{EngineConfig, FileAllocation};
use crate::engine::disposition;
use crate::engine::download;
use crate::engine::download::{Plan, PlanView};
use crate::engine::io;
use crate::engine::resume;
use crate::engine::task;
use crate::engine::task::{DownloadState, DownloadTask, StateView, TaskView};
use crate::engine::urls;
use crate::engine::worker;
use crate::path;
use crate::path::FilePath;
use crate::text;
use vstd::prelude::*;

verus! {

// ─── Events ──────────────────────────────────────────────────────────────────

/// What is known of a file once it was probed, with all text in view.
pub struct FoundView {
    pub total_bytes: Option<u64>,
    pub accepts_ranges: bool,
    pub etag: Option<Seq<char>>,
    pub last_modified: Option<Seq<char>>,
    pub output_path: Seq<u8>,
    pub chunk_map: Option<Seq<Chunk>>,
}

/// What is known of a file once it was probed.
#[derive(Debug)]
pub struct Found {
    pub total_bytes: Option<u64>,
    pub accepts_ranges: bool,
    pub etag: Option<String>,
    pub last_modified: Option<String>,
    /// Where the file goes
    pub output_path: FilePath,
    /// The chunks of an earlier run that can be used again
    pub chunk_map: Option<ChunkMap>,
}

impl View for Found {
    type V = FoundView;

    open spec fn view(&self) -> FoundView {
        FoundView {
            total_bytes: self.total_bytes,
            accepts_ranges: self.accepts_ranges,
            etag: text::opt(self.etag),
            last_modified: text::opt(self.last_modified),
            output_path: self.output_path@,
            chunk_map: chunks_view(self.chunk_map),
        }
    }
}

/// The chunks of an optional map.
pub open spec fn chunks_view(map: Option<ChunkMap>) -> Option<Seq<Chunk>> {
    match map {
        Some(map) => Some(map.chunks@),
        None => None,
    }
}

/// An event, with all text in view.
pub enum EventView {
    Found(FoundView),
    Chunks(Seq<Chunk>),
    Progress { downloaded: u64, speed_bps: u64, connections: usize },
    StateChange(StateView),
    Complete { output_path: Seq<u8> },
    Error(Seq<char>),
}

/// Events emitted by the scheduler back to the manager.
#[derive(Debug)]
pub enum SchedulerEvent {
    /// The file was probed
    Found(Found),
    /// How far the chunks are
    Chunks(ChunkMap),
    Progress { downloaded: u64, speed_bps: u64, connections: usize },
    StateChange(DownloadState),
    Complete { output_path: FilePath },
    Error(String),
}

impl View for SchedulerEvent {
    type V = EventView;

    open spec fn view(&self) -> EventView {
        match *self {
            SchedulerEvent::Found(found) => EventView::Found(found@),
            SchedulerEvent::Chunks(map) => EventView::Chunks(map.chunks@),
            SchedulerEvent::Progress { downloaded, speed_bps, connections } => EventView::Progress {
                downloaded,
                speed_bps,
                connections,
            },
            SchedulerEvent::StateChange(state) => EventView::StateChange(state@),
            SchedulerEvent::Complete { output_path } => EventView::Complete {
                output_path: output_path@,
            },
            SchedulerEvent::Error(e) => EventView::Error(e@),
        }
    }
}

/// Each event, with all text in view.
pub open spec fn each_event(events: Seq<SchedulerEvent>) -> Seq<EventView> {
    events.map_values(|e: SchedulerEvent| e@)
}

// ─── Probing ─────────────────────────────────────────────────────────────────

/// What a probe found, with all text in view.
pub struct ProbeView {
    pub content_length: Option<u64>,
    pub accepts_ranges: bool,
    pub etag: Option<Seq<char>>,
    pub last_modified: Option<Seq<char>>,
    pub filename: Option<Seq<char>>,
    pub is_http2: bool,
}

/// What a probe found.
#[derive(Debug)]
pub struct ProbeResult {
    pub content_length: Option<u64>,
    pub accepts_ranges: bool,
    pub etag: Option<String>,
    pub last_modified: Option<String>,
    /// The name that the server suggests for the file
    pub filename: Option<String>,
    pub is_http2: bool,
}

impl View for ProbeResult {
    type V = ProbeView;

    open spec fn view(&self) -> ProbeView {
        ProbeView {
            content_length: self.content_length,
            accepts_ranges: self.accepts_ranges,
            etag: text::opt(self.etag),
            last_modified: text::opt(self.last_modified),
            filename: text::opt(self.filename),
            is_http2: self.is_http2,
        }
    }
}

/// The parts of a response to a HEAD request that a probe reads. A header whose
/// value is not text counts as absent.
#[derive(Debug)]
pub struct HeadResponse {
    pub status: u16,
    /// The status as text
    pub reason: String,
    pub content_length: Option<String>,
    pub accept_ranges: Option<String>,
    pub etag: Option<String>,
    pub last_modified: Option<String>,
    pub content_disposition: Option<String>,
    pub is_http2: bool,
}

/// What a successful response says of the file.
pub open spec fn probed(response: HeadResponse) -> ProbeView {
    ProbeView {
        content_length: match response.content_length {
            Some(length) => text::parsed_u64(length@),
            None => None,
        },
        accepts_ranges: response.accept_ranges matches Some(unit) && text::ascii_lowered(unit@)
            == "bytes"@,
        etag: text::opt(response.etag),
        last_modified: text::opt(response.last_modified),
        filename: match response.content_disposition {
            Some(header) => disposition::suggested(header@),
            None => None,
        },
        is_http2: response.is_http2,
    }
}

/// Read a probe's response.
pub fn read_head(response: &HeadResponse) -> (r: Result<ProbeResult, String>)
    ensures
        r is Ok <==> worker::success(response.status),
        r matches Ok(probe) ==> probe@ == probed(*response),
        r matches Err(message) ==> message@ == "HEAD returned HTTP "@ + response.reason@,
{
    if !worker::is_success(response.status) {
        let mut message: String = "HEAD returned HTTP ".to_string();
        message.append(response.reason.as_str());
        return Err(message);
    }
    proof {
        reveal_strlit("bytes");
        assert(text::ascii_lowered("bytes"@) =~= "bytes"@);
    }
    Ok(
        ProbeResult {
            content_length: match &response.content_length {
                Some(length) => text::parse_u64(length.as_str()),
                None => None,
            },
            accepts_ranges: match &response.accept_ranges {
                Some(unit) => text::eq_ignore_ascii_case(unit.as_str(), "bytes"),
                None => false,
            },
            etag: response.etag.clone(),
            last_modified: response.last_modified.clone(),
            filename: match &response.content_disposition {
                Some(header) => disposition::suggested_name(header.as_str()),
                None => None,
            },
            is_http2: response.is_http2,
        },
    )
}

// ─── Planning ────────────────────────────────────────────────────────────────

/// The number of chunks that a file is split into: one where the server takes no
/// ranges.
pub open spec fn split_for(
    accepts_ranges: bool,
    task_split: Option<usize>,
    default_split: usize,
) -> usize {
    if !accepts_ranges {
        1
    } else {
        match task_split {
            Some(n) => n,
            None => default_split,
        }
    }
}

/// The number of chunks that a file is split into.
pub fn effective_split(
    accepts_ranges: bool,
    task_split: Option<usize>,
    default_split: usize,
) -> (split: usize)
    ensures
        split == split_for(accepts_ranges, task_split, default_split),
{
    if !accepts_ranges {
        1
    } else {
        match task_split {
            Some(n) => n,
            None => default_split,
        }
    }
}

/// The task's own limit, or the default one.
pub open spec fn limit_for(task_max: Option<usize>, default_max: usize) -> usize {
    match task_max {
        Some(n) => n,
        None => default_max,
    }
}

/// The file is divided into several chunks.
pub open spec fn divides(content_length: Option<u64>, min_split_size: u64, split: usize) -> bool {
    content_length matches Some(len) && len >= min_split_size && split > 1
}

/// A division that can be made: there are bytes to divide, and their number and
/// that of the chunks are small enough.
pub open spec fn divisible(content_length: Option<u64>, min_split_size: u64, split: usize) -> bool {
    divides(content_length, min_split_size, split) ==> 0 < content_length->0 && content_length->0
        + split - 1 <= u64::MAX
}

/// The one chunk from byte 0 to `end`.
pub open spec fn whole(end: u64) -> Seq<Chunk> {
    seq![Chunk { index: 0, start: 0, end, downloaded: 0, state: ChunkState::Pending }]
}

/// The chunks of a file: several where it is large enough to be divided, one
/// where it is not, and an open-ended one where its size is unknown.
pub open spec fn chunks_for(
    content_length: Option<u64>,
    min_split_size: u64,
    split: usize,
) -> Seq<Chunk> {
    match content_length {
        Some(len) => if divides(content_length, min_split_size, split) {
            Seq::new(
                chunk::chunk_count(len as int, split as int) as nat,
                |i: int| chunk::nth_chunk(len as int, split as int, i),
            )
        } else {
            whole(
                if len == 0 {
                    0
                } else {
                    (len - 1) as u64
                },
            )
        },
        None => whole(u64::MAX),
    }
}

/// Divide a file into chunks.
pub fn plan_chunks(content_length: Option<u64>, min_split_size: u64, split: usize) -> (map: ChunkMap)
    requires
        divisible(content_length, min_split_size, split),
    ensures
        map.chunks@ == chunks_for(content_length, min_split_size, split),
{
    match content_length {
        Some(len) => {
            if len >= min_split_size && split > 1 {
                let map = ChunkMap::new(len, split);
                assert(map.chunks@ =~= chunks_for(content_length, min_split_size, split));
                map
            } else {
                ChunkMap::single(len)
            }
        },
        None => ChunkMap::unknown(),
    }
}

/// A planned file of known size is covered by its chunks exactly once, and each
/// chunk has a length and stands at its index. (A file of no bytes is planned as
/// one byte.)
pub proof fn plans_cover_the_file(len: u64, min_split_size: u64, split: usize)
    requires
        divisible(Some(len), min_split_size, split),
    ensures
        ({
            let chunks = chunks_for(Some(len), min_split_size, split);
            &&& chunk::all_sized(chunks)
            &&& chunk::indexed(chunks)
            &&& chunk::partitions(
                chunks,
                if len == 0 {
                    1
                } else {
                    len as int
                },
            )
        }),
{
    let chunks = chunks_for(Some(len), min_split_size, split);
    if divides(Some(len), min_split_size, split) {
        chunk::division_bounds(len as int, split as int);
        chunk::division_partitions_the_file(chunks, len as int, split as int);
    } else {
        let total: int = if len == 0 {
            1
        } else {
            len as int
        };
        assert forall|b: int| #[trigger] chunk::covered(chunks, b) <==> 0 <= b < total by {
            if 0 <= b < total {
                assert(chunks[0].holds(b));
            }
        }
    }
}

// ─── Resuming ────────────────────────────────────────────────────────────────

/// The probed file is the one that the task's chunks were fetched of: it has the
/// same size and the same validators, and there is a validator to go by.
pub open spec fn same_file(t: TaskView, probe: ProbeView) -> bool {
    &&& probe.content_length is Some
    &&& t.total_bytes == probe.content_length
    &&& t.etag == probe.etag
    &&& t.last_modified == probe.last_modified
    &&& (probe.etag is Some || probe.last_modified is Some)
}

/// The task's chunks as they can be used again: where the server takes ranges,
/// the file is the same and the chunks are those of a file of its size.
pub open spec fn kept_chunks(t: TaskView, probe: ProbeView) -> Option<Seq<Chunk>> {
    match t.chunk_map {
        Some(chunks) => if probe.accepts_ranges && same_file(t, probe) && resume::fits(
            chunks,
            probe.content_length->0 as int,
        ) {
            Some(resume::all_revived(chunks))
        } else {
            None
        },
        None => None,
    }
}

/// The task's chunks as they can be used again.
fn keep_chunks(task: &DownloadTask, probe: &ProbeResult) -> (kept: Option<ChunkMap>)
    ensures
        chunks_view(kept) == kept_chunks(task@, probe@),
{
    if !probe.accepts_ranges || !text::same_opt(&task.etag, &probe.etag) || !text::same_opt(
        &task.last_modified,
        &probe.last_modified,
    ) || (probe.etag.is_none() && probe.last_modified.is_none()) {
        return None;
    }
    match (&task.chunk_map, task.total_bytes, probe.content_length) {
        (Some(map), Some(known), Some(len)) => {
            if known == len && resume::fits_file(map, len) {
                Some(resume::revive(map))
            } else {
                None
            }
        },
        _ => None,
    }
}

/// Chunks that a download of `total` bytes can begin with.
pub open spec fn usable(chunks: Seq<Chunk>, total: Option<u64>) -> bool {
    &&& total is Some
    &&& resume::fits(chunks, total->0 as int)
    &&& forall|i: int|
        0 <= i < chunks.len() ==> {
            &&& (#[trigger] chunks[i]).downloaded <= chunks[i].length()
            &&& chunks[i].state is Complete || chunks[i].state is Pending
            &&& chunks[i].state is Complete <==> chunks[i].done()
        }
}

proof fn lemma_kept_chunks_are_usable(t: TaskView, probe: ProbeView)
    ensures
        kept_chunks(t, probe) matches Some(chunks) ==> usable(chunks, probe.content_length),
{
    if let Some(after) = kept_chunks(t, probe) {
        let chunks = t.chunk_map->0;
        let total = probe.content_length->0 as int;
        resume::reviving_keeps_what_was_downloaded(chunks, total);
        assert forall|i: int| 0 <= i < after.len() implies {
            &&& (#[trigger] after[i]).downloaded <= after[i].length()
            &&& after[i].state is Complete || after[i].state is Pending
            &&& after[i].state is Complete <==> after[i].done()
        } by {
            assert(chunks[i].is_sized());
            assert(after[i] == resume::all_revived(chunks)[i]);
        }
    }
}

proof fn lemma_usable_reach(chunks: Seq<Chunk>, total: Option<u64>)
    requires
        usable(chunks, total),
    ensures
        0 <= resume::reach(chunks) <= total->0,
        forall|i: int|
            0 <= i < chunks.len() ==> resume::reach_of(#[trigger] chunks[i]) <= u64::MAX,
{
    assert(resume::all_revived(chunks) =~= chunks) by {
        assert forall|i: int| 0 <= i < chunks.len() implies resume::revived(#[trigger] chunks[i])
            == chunks[i] by {
            assert(chunks[i].is_sized());
        }
    }
    resume::reach_is_within_the_file(chunks, total->0 as int);
}

/// How the file gets its space.
#[derive(Debug, Clone, Copy, PartialEq, Eq, Structural)]
pub enum Space {
    /// It grows as it is written
    Growing,
    /// Its length is set
    Length(u64),
    /// Its blocks are reserved
    Reserved(u64),
}

/// How a file gets its space; it grows where its size is not known.
pub open spec fn space_for(allocation: FileAllocation, total_bytes: Option<u64>) -> Space {
    match (allocation, total_bytes) {
        (FileAllocation::Prealloc, Some(n)) => Space::Length(n),
        (FileAllocation::Falloc, Some(n)) => Space::Reserved(n),
        _ => Space::Growing,
    }
}

/// How a file gets its space.
pub fn file_space(allocation: FileAllocation, total_bytes: Option<u64>) -> (space: Space)
    ensures
        space == space_for(allocation, total_bytes),
{
    match (allocation, total_bytes) {
        (FileAllocation::Prealloc, Some(n)) => Space::Length(n),
        (FileAllocation::Falloc, Some(n)) => Space::Reserved(n),
        _ => Space::Growing,
    }
}

/// Whether the file that is there, of this length, is kept: if it has at least as
/// many bytes as `keep` asks for.
pub fn keeps_file(keep: Option<u64>, length: Option<u64>) -> (r: bool)
    ensures
        r <==> keep is Some && length is Some && keep->0 <= length->0,
{
    match (keep, length) {
        (Some(least), Some(n)) => least <= n,
        _ => false,
    }
}

// ─── The lifecycle ───────────────────────────────────────────────────────────

/// Where a download stands in its lifecycle.
#[derive(Debug, Clone, Copy, PartialEq, Eq, Structural)]
pub enum Phase {
    /// Waiting for the probe of the URL at `tried`
    Probing { tried: usize },
    MakingDir,
    CheckingSpace,
    Allocating,
    Downloading,
    Verifying,
    /// Not started, or over
    Stopped,
}

/// An action, with all text in view.
pub enum ActionView {
    Probe { url: Seq<char> },
    CreateDir { dir: Seq<u8> },
    CheckSpace { dir: Seq<u8> },
    Allocate { path: Seq<u8>, space: Space, keep: Option<u64> },
    Download { plan: PlanView, path: Seq<u8> },
    ReadFile { path: Seq<u8> },
    Stop(Result<(), Seq<char>>),
}

/// What is to be done next.
#[derive(Debug)]
pub enum Action {
    /// Send a HEAD request
    Probe { url: String },
    /// Create the output directory and its parents
    CreateDir { dir: FilePath },
    /// Find out how much space is available
    CheckSpace { dir: FilePath },
    /// Create the output file; or keep the one that is there, if it has at least
    /// `keep` bytes
    Allocate { path: FilePath, space: Space, keep: Option<u64> },
    /// Run the download loop
    Download { plan: Plan, path: FilePath },
    /// Read the output file back
    ReadFile { path: FilePath },
    /// The download is over
    Stop(Result<(), String>),
}

impl View for Action {
    type V = ActionView;

    open spec fn view(&self) -> ActionView {
        match *self {
            Action::Probe { url } => ActionView::Probe { url: url@ },
            Action::CreateDir { dir } => ActionView::CreateDir { dir: dir@ },
            Action::CheckSpace { dir } => ActionView::CheckSpace { dir: dir@ },
            Action::Allocate { path, space, keep } => ActionView::Allocate {
                path: path@,
                space,
                keep,
            },
            Action::Download { plan, path } => ActionView::Download { plan: plan@, path: path@ },
            Action::ReadFile { path } => ActionView::ReadFile { path: path@ },
            Action::Stop(r) => ActionView::Stop(
                match r {
                    Ok(()) => Ok(()),
                    Err(e) => Err(e@),
                },
            ),
        }
    }
}

/// What came of an action, with all text in view.
pub enum InputView {
    Probed(Result<ProbeView, Seq<char>>),
    DirCreated(Result<(), Seq<char>>),
    Space(Result<u64, Seq<char>>),
    Allocated(Result<bool, Seq<char>>),
    Downloaded(Result<(), Seq<char>>),
    FileRead(Result<Seq<u8>, Seq<char>>),
}

/// What came of an action; errors as text.
#[derive(Debug)]
pub enum Input {
    Probed(Result<ProbeResult, String>),
    DirCreated(Result<(), String>),
    /// The bytes available
    Space(Result<u64, String>),
    /// Whether the file that was there is kept
    Allocated(Result<bool, String>),
    Downloaded(Result<(), String>),
    FileRead(Result<Vec<u8>, String>),
}

/// A result without a value, with its error's text in view.
pub open spec fn unit_view(r: Result<(), String>) -> Result<(), Seq<char>> {
    match r {
        Ok(()) => Ok(()),
        Err(e) => Err(e@),
    }
}

impl View for Input {
    type V = InputView;

    open spec fn view(&self) -> InputView {
        match *self {
            Input::Probed(r) => InputView::Probed(
                match r {
                    Ok(probe) => Ok(probe@),
                    Err(e) => Err(e@),
                },
            ),
            Input::DirCreated(r) => InputView::DirCreated(unit_view(r)),
            Input::Space(r) => InputView::Space(
                match r {
                    Ok(n) => Ok(n),
                    Err(e) => Err(e@),
                },
            ),
            Input::Allocated(r) => InputView::Allocated(
                match r {
                    Ok(kept) => Ok(kept),
                    Err(e) => Err(e@),
                },
            ),
            Input::Downloaded(r) => InputView::Downloaded(unit_view(r)),
            Input::FileRead(r) => InputView::FileRead(
                match r {
                    Ok(data) => Ok(data@),
                    Err(e) => Err(e@),
                },
            ),
        }
    }
}

/// What the scheduler holds.
pub struct SchedulerView {
    pub task: TaskView,
    pub config: EngineConfig,
    pub phase: Phase,
    /// The name that the server suggests for the file
    pub filename: Option<Seq<char>>,
}

/// The directory that the task's file goes to.
pub open spec fn dir_for(s: SchedulerView) -> Seq<u8> {
    match s.task.options.dir {
        Some(dir) => dir,
        None => s.config.download_dir@,
    }
}

/// The name of the task's file: the one that was asked for, else the one that the
/// server suggests, else the one that the URL gives.
pub open spec fn name_for(s: SchedulerView) -> Seq<char> {
    match (s.task.options.out, s.filename) {
        (Some(out), _) => out,
        (None, Some(name)) => name,
        (None, None) => task::filename_of(urls::segments_of(s.task.urls[0])),
    }
}

/// The path of the task's file.
pub open spec fn path_for(s: SchedulerView) -> Seq<u8> {
    path::joined(dir_for(s), path::written(name_for(s)))
}

/// The number of chunks that the task's file is split into.
pub open spec fn task_split(s: SchedulerView, accepts_ranges: bool) -> usize {
    split_for(accepts_ranges, s.task.options.split, s.config.split)
}

/// The chunks to begin with: those of an earlier run where its file was kept, and
/// otherwise fresh ones.
pub open spec fn first_chunks(s: SchedulerView, kept: bool) -> Seq<Chunk> {
    match (kept, s.task.chunk_map) {
        (true, Some(chunks)) => chunks,
        _ => chunks_for(
            s.task.total_bytes,
            s.config.min_split_size,
            task_split(s, s.task.accepts_ranges),
        ),
    }
}

/// The plan for the task's file, once it was probed; `kept` says whether the file
/// of an earlier run is there.
pub open spec fn plan_for(s: SchedulerView, kept: bool) -> PlanView {
    let max_connections = limit_for(
        s.task.options.max_connections,
        s.config.max_connections_per_server,
    );
    PlanView {
        chunks: first_chunks(s, kept),
        urls: s.task.urls,
        max_connections,
        sequential: s.task.options.sequential,
        work_stealing: s.config.work_stealing,
        max_retries: s.config.max_retries,
        retry_delay_ms: s.config.retry_delay_ms,
        chunk_size: s.config.chunk_size,
    }
}

/// One step: the scheduler after it, the events to emit and the action to take.
pub struct StepView {
    pub after: SchedulerView,
    pub events: Seq<EventView>,
    pub action: ActionView,
}

/// Stop with an error that only the caller is told.
pub open spec fn stop_with(s: SchedulerView, e: Seq<char>) -> StepView {
    StepView {
        after: SchedulerView { phase: Phase::Stopped, ..s },
        events: Seq::empty(),
        action: ActionView::Stop(Err(e)),
    }
}

/// Stop with an error that is emitted, too.
pub open spec fn fail_with(s: SchedulerView, e: Seq<char>) -> StepView {
    StepView { events: seq![EventView::Error(e)], ..stop_with(s, e) }
}

/// Go on to `phase` with `action`; nothing is emitted.
pub open spec fn go_on(s: SchedulerView, phase: Phase, action: ActionView) -> StepView {
    StepView { after: SchedulerView { phase, ..s }, events: Seq::empty(), action }
}

/// Create the output file, or keep that of an earlier run.
pub open spec fn allocate(s: SchedulerView) -> StepView {
    go_on(
        s,
        Phase::Allocating,
        ActionView::Allocate {
            path: path_for(s),
            space: space_for(s.config.file_allocation, s.task.total_bytes),
            keep: match s.task.chunk_map {
                Some(chunks) => Some(resume::reach(chunks) as u64),
                None => None,
            },
        },
    )
}

/// The download succeeded.
pub open spec fn finish(s: SchedulerView) -> StepView {
    StepView {
        after: SchedulerView { phase: Phase::Stopped, ..s },
        events: seq![
            EventView::StateChange(StateView::Assembling),
            EventView::Complete { output_path: path_for(s) },
        ],
        action: ActionView::Stop(Ok(())),
    }
}

/// The first step: probe the first URL.
pub open spec fn start_of(s: SchedulerView) -> StepView {
    let probing = EventView::StateChange(StateView::Probing);
    if s.task.urls.len() == 0 {
        let failed = fail_with(s, "All mirrors failed during probe"@);
        StepView { events: seq![probing] + failed.events, ..failed }
    } else {
        StepView {
            events: seq![probing],
            ..go_on(s, Phase::Probing { tried: 0 }, ActionView::Probe { url: s.task.urls[0] })
        }
    }
}

/// What is known of the task's file.
pub open spec fn found_of(s: SchedulerView) -> FoundView {
    FoundView {
        total_bytes: s.task.total_bytes,
        accepts_ranges: s.task.accepts_ranges,
        etag: s.task.etag,
        last_modified: s.task.last_modified,
        output_path: path_for(s),
        chunk_map: s.task.chunk_map,
    }
}

/// The scheduler once a probe went through.
pub open spec fn informed(s: SchedulerView, probe: ProbeView) -> SchedulerView {
    SchedulerView {
        task: TaskView {
            total_bytes: probe.content_length,
            accepts_ranges: probe.accepts_ranges,
            etag: probe.etag,
            last_modified: probe.last_modified,
            chunk_map: kept_chunks(s.task, probe),
            ..s.task
        },
        filename: probe.filename,
        ..s
    }
}

/// The step after a probe.
pub open spec fn after_probe(
    s: SchedulerView,
    tried: usize,
    r: Result<ProbeView, Seq<char>>,
) -> StepView {
    match r {
        Ok(probe) => {
            let after = informed(s, probe);
            StepView {
                events: seq![EventView::Found(found_of(after))],
                ..go_on(after, Phase::MakingDir, ActionView::CreateDir { dir: dir_for(s) })
            }
        },
        Err(_) => if tried + 1 < s.task.urls.len() {
            go_on(
                s,
                Phase::Probing { tried: (tried + 1) as usize },
                ActionView::Probe { url: s.task.urls[tried + 1] },
            )
        } else {
            fail_with(s, "All mirrors failed during probe"@)
        },
    }
}

/// The step after the space was looked up.
pub open spec fn after_space(s: SchedulerView, r: Result<u64, Seq<char>>) -> StepView {
    match r {
        Ok(available) => if s.task.total_bytes matches Some(required) && available < required {
            fail_with(s, io::space_error(available, s.task.total_bytes->0))
        } else {
            allocate(s)
        },
        Err(e) => fail_with(s, e),
    }
}

/// The step after the file was read back.
pub open spec fn after_read(s: SchedulerView, r: Result<Seq<u8>, Seq<char>>) -> StepView {
    match r {
        Ok(data) => match s.task.options.checksum {
            Some(expected) => {
                let digest = checksum::digest_of(expected.algorithm, data);
                if checksum::accepts(expected.value, digest) {
                    finish(s)
                } else {
                    stop_with(s, checksum::mismatch(expected.value, digest))
                }
            },
            None => finish(s),
        },
        Err(e) => stop_with(s, e),
    }
}

/// The step that an input leads to.
pub open spec fn step_of(s: SchedulerView, input: InputView) -> StepView {
    match (s.phase, input) {
        (Phase::Probing { tried }, InputView::Probed(r)) => after_probe(s, tried, r),
        (Phase::MakingDir, InputView::DirCreated(Ok(_))) => if s.task.total_bytes is Some {
            go_on(s, Phase::CheckingSpace, ActionView::CheckSpace { dir: dir_for(s) })
        } else {
            allocate(s)
        },
        (Phase::CheckingSpace, InputView::Space(r)) => after_space(s, r),
        (Phase::Allocating, InputView::Allocated(Ok(kept))) => StepView {
            events: seq![
                EventView::Chunks(first_chunks(s, kept)),
                EventView::StateChange(StateView::Active),
            ],
            ..go_on(
                s,
                Phase::Downloading,
                ActionView::Download { plan: plan_for(s, kept), path: path_for(s) },
            )
        },
        (Phase::Downloading, InputView::Downloaded(Ok(_))) => if s.task.options.checksum is Some {
            go_on(s, Phase::Verifying, ActionView::ReadFile { path: path_for(s) })
        } else {
            finish(s)
        },
        (Phase::Verifying, InputView::FileRead(r)) => after_read(s, r),
        (_, InputView::DirCreated(Err(e))) => stop_with(s, e),
        (_, InputView::Allocated(Err(e))) => stop_with(s, e),
        (_, InputView::Downloaded(Err(e))) => stop_with(s, e),
        _ => stop_with(s, Seq::empty()),
    }
}

/// The input answers the action that the scheduler waits for; and a probe found
/// a file that can be planned.
pub open spec fn answers(s: SchedulerView, input: InputView) -> bool {
    match s.phase {
        Phase::Probing { .. } => {
            &&& input is Probed
            &&& input matches InputView::Probed(Ok(probe)) ==> divisible(
                probe.content_length,
                s.config.min_split_size,
                task_split(s, probe.accepts_ranges),
            )
        },
        Phase::MakingDir => input is DirCreated,
        Phase::CheckingSpace => input is Space,
        Phase::Allocating => input is Allocated,
        Phase::Downloading => input is Downloaded,
        Phase::Verifying => input is FileRead,
        Phase::Stopped => false,
    }
}

/// What holds of a scheduler between two steps: the URL being probed exists,
/// there is a URL once a probe went through, the probed file can be planned, and
/// the chunks that are kept are those of the file.
pub open spec fn consistent(s: SchedulerView) -> bool {
    match s.phase {
        Phase::Probing { tried } => tried < s.task.urls.len(),
        Phase::Stopped => true,
        _ => {
            &&& s.task.urls.len() > 0
            &&& divisible(
                s.task.total_bytes,
                s.config.min_split_size,
                task_split(s, s.task.accepts_ranges),
            )
            &&& s.task.chunk_map matches Some(chunks) ==> usable(chunks, s.task.total_bytes)
        },
    }
}

/// Drives the lifecycle of a single download.
#[derive(Debug)]
pub struct Scheduler {
    task: DownloadTask,
    config: EngineConfig,
    phase: Phase,
    filename: Option<String>,
}

impl View for Scheduler {
    type V = SchedulerView;

    closed spec fn view(&self) -> SchedulerView {
        SchedulerView {
            task: self.task@,
            config: self.config,
            phase: self.phase,
            filename: text::opt(self.filename),
        }
    }
}

/// One step: the events to emit, in order, and then the action to take.
#[derive(Debug)]
pub struct Step {
    pub events: Vec<SchedulerEvent>,
    pub action: Action,
}

/// The step is what the contract says.
pub open spec fn steps_to(step: Step, expected: StepView, after: SchedulerView) -> bool {
    &&& after == expected.after
    &&& each_event(step.events@) == expected.events
    &&& step.action@ == expected.action
}

impl Scheduler {
    /// The scheduler's view is consistent.
    pub open spec fn wf(self) -> bool {
        consistent(self@)
    }

    pub fn new(task: DownloadTask, config: EngineConfig) -> (s: Self)
        ensures
            s@ == (SchedulerView {
                task: task@,
                config,
                phase: Phase::Stopped,
                filename: None,
            }),
    {
        Scheduler { task, config, phase: Phase::Stopped, filename: None }
    }

    /// Begin the lifecycle.
    pub fn start(&mut self) -> (step: Step)
        ensures
            final(self).wf(),
            steps_to(step, start_of(old(self)@), final(self)@),
    {
        let ghost before = self@;
        let mut events: Vec<SchedulerEvent> = Vec::new();
        events.push(SchedulerEvent::StateChange(DownloadState::Probing));
        if self.task.urls.len() == 0 {
            self.phase = Phase::Stopped;
            events.push(SchedulerEvent::Error("All mirrors failed during probe".to_string()));
            assert(each_event(events@) =~= start_of(before).events);
            return Step {
                events,
                action: Action::Stop(Err("All mirrors failed during probe".to_string())),
            };
        }
        self.phase = Phase::Probing { tried: 0 };
        assert(each_event(events@) =~= start_of(before).events);
        Step { events, action: Action::Probe { url: self.task.urls[0].clone() } }
    }

    /// Whether `input` answers the action that the scheduler waits for, and
    /// leads to a plan that can be made.
    pub fn expects(&self, input: &Input) -> (r: bool)
        ensures
            r == answers(self@, input@),
    {
        match (self.phase, input) {
            (Phase::Probing { .. }, Input::Probed(Ok(probe))) => {
                let split: usize = effective_split(
                    probe.accepts_ranges,
                    self.task.options.split,
                    self.config.split,
                );
                match probe.content_length {
                    Some(len) => len < self.config.min_split_size || split <= 1 || (len > 0
                        && split as u64 - 1 <= u64::MAX - len),
                    None => true,
                }
            },
            (Phase::Probing { .. }, Input::Probed(Err(_))) => true,
            (Phase::MakingDir, Input::DirCreated(_)) => true,
            (Phase::CheckingSpace, Input::Space(_)) => true,
            (Phase::Allocating, Input::Allocated(_)) => true,
            (Phase::Downloading, Input::Downloaded(_)) => true,
            (Phase::Verifying, Input::FileRead(_)) => true,
            _ => false,
        }
    }

    /// Take the outcome of the last action: what to emit and what to do next.
    pub fn step(&mut self, input: Input) -> (step: Step)
        requires
            old(self).wf(),
            answers(old(self)@, input@),
        ensures
            final(self).wf(),
            steps_to(step, step_of(old(self)@, input@), final(self)@),
    {
        match input {
            Input::Probed(r) => {
                let tried: usize = match self.phase {
                    Phase::Probing { tried } => tried,
                    _ => 0,
                };
                self.probe_done(tried, r)
            },
            Input::DirCreated(Ok(())) => {
                if self.task.total_bytes.is_some() {
                    self.phase = Phase::CheckingSpace;
                    let dir = self.output_dir();
                    self.quietly(Action::CheckSpace { dir })
                } else {
                    self.allocate()
                }
            },
            Input::DirCreated(Err(e)) => self.stop(e),
            Input::Space(Ok(available)) => {
                if let Some(required) = self.task.total_bytes {
                    if let Err(e) = io::ensure_disk_space(available, required) {
                        return self.fail(e);
                    }
                }
                self.allocate()
            },
            Input::Space(Err(e)) => self.fail(e),
            Input::Allocated(Ok(kept)) => {
                let plan = self.plan(kept);
                let path = self.output_path();
                self.phase = Phase::Downloading;
                let events = vec![
                    SchedulerEvent::Chunks(plan.chunk_map.clone()),
                    SchedulerEvent::StateChange(DownloadState::Active),
                ];
                assert(each_event(events@) =~= step_of(old(self)@, input@).events);
                Step { events, action: Action::Download { plan, path } }
            },
            Input::Allocated(Err(e)) => self.stop(e),
            Input::Downloaded(Ok(())) => {
                if self.task.options.checksum.is_some() {
                    self.phase = Phase::Verifying;
                    let path = self.output_path();
                    self.quietly(Action::ReadFile { path })
                } else {
                    self.finish()
                }
            },
            Input::Downloaded(Err(e)) => self.stop(e),
            Input::FileRead(Ok(data)) => {
                if let Some(expected) = &self.task.options.checksum {
                    if let Err(e) = checksum::verify_checksum(data.as_slice(), expected) {
                        return self.stop(e);
                    }
                }
                self.finish()
            },
            Input::FileRead(Err(e)) => self.stop(e),
        }
    }

    fn probe_done(&mut self, tried: usize, r: Result<ProbeResult, String>) -> (step: Step)
        requires
            tried < old(self)@.task.urls.len(),
            r matches Ok(probe) ==> divisible(
                probe@.content_length,
                old(self)@.config.min_split_size,
                task_split(old(self)@, probe@.accepts_ranges),
            ),
        ensures
            final(self).wf(),
            steps_to(
                step,
                after_probe(
                    old(self)@,
                    tried,
                    match r {
                        Ok(probe) => Ok(probe@),
                        Err(e) => Err(e@),
                    },
                ),
                final(self)@,
            ),
    {
        match r {
            Ok(probe) => {
                let ghost before = self@;
                let ghost known = probe@;
                let dir = self.output_dir();
                let kept = keep_chunks(&self.task, &probe);
                proof {
                    lemma_kept_chunks_are_usable(self.task@, probe@);
                }
                self.task.total_bytes = probe.content_length;
                self.task.accepts_ranges = probe.accepts_ranges;
                self.task.etag = probe.etag;
                self.task.last_modified = probe.last_modified;
                self.task.chunk_map = kept;
                self.filename = probe.filename;
                assert(self@ == informed(before, known));
                let found = self.found();
                self.phase = Phase::MakingDir;
                let events = vec![SchedulerEvent::Found(found)];
                assert(each_event(events@) =~= seq![EventView::Found(
                    found_of(informed(before, known)),
                )]);
                Step { events, action: Action::CreateDir { dir } }
            },
            Err(_) => {
                if tried < self.task.urls.len() - 1 {
                    self.phase = Phase::Probing { tried: tried + 1 };
                    let url = self.task.urls[tried + 1].clone();
                    self.quietly(Action::Probe { url })
                } else {
                    self.fail("All mirrors failed during probe".to_string())
                }
            },
        }
    }

    /// A step that emits nothing.
    fn quietly(&self, action: Action) -> (step: Step)
        ensures
            each_event(step.events@) == Seq::<EventView>::empty(),
            step.action == action,
    {
        let events: Vec<SchedulerEvent> = Vec::new();
        assert(each_event(events@) =~= Seq::<EventView>::empty());
        Step { events, action }
    }

    fn stop(&mut self, e: String) -> (step: Step)
        ensures
            final(self).wf(),
            steps_to(step, stop_with(old(self)@, e@), final(self)@),
    {
        self.phase = Phase::Stopped;
        self.quietly(Action::Stop(Err(e)))
    }

    fn fail(&mut self, e: String) -> (step: Step)
        ensures
            final(self).wf(),
            steps_to(step, fail_with(old(self)@, e@), final(self)@),
    {
        self.phase = Phase::Stopped;
        let events = vec![SchedulerEvent::Error(e.clone())];
        assert(each_event(events@) =~= seq![EventView::Error(e@)]);
        Step { events, action: Action::Stop(Err(e)) }
    }

    fn allocate(&mut self) -> (step: Step)
        requires
            old(self)@.task.urls.len() > 0,
            divisible(
                old(self)@.task.total_bytes,
                old(self)@.config.min_split_size,
                task_split(old(self)@, old(self)@.task.accepts_ranges),
            ),
            old(self)@.task.chunk_map matches Some(chunks) ==> usable(
                chunks,
                old(self)@.task.total_bytes,
            ),
        ensures
            final(self).wf(),
            steps_to(step, allocate(old(self)@), final(self)@),
    {
        let path = self.output_path();
        let space = file_space(self.config.file_allocation, self.task.total_bytes);
        let keep: Option<u64> = match &self.task.chunk_map {
            Some(map) => {
                proof {
                    lemma_usable_reach(map.chunks@, self.task.total_bytes);
                }
                Some(resume::least_length(map))
            },
            None => None,
        };
        self.phase = Phase::Allocating;
        self.quietly(Action::Allocate { path, space, keep })
    }

    /// What is known of the file.
    fn found(&self) -> (found: Found)
        requires
            self@.task.urls.len() > 0,
        ensures
            found@ == found_of(self@),
    {
        Found {
            total_bytes: self.task.total_bytes,
            accepts_ranges: self.task.accepts_ranges,
            etag: self.task.etag.clone(),
            last_modified: self.task.last_modified.clone(),
            output_path: self.output_path(),
            chunk_map: match &self.task.chunk_map {
                Some(map) => Some(map.clone()),
                None => None,
            },
        }
    }

    fn finish(&mut self) -> (step: Step)
        requires
            old(self)@.task.urls.len() > 0,
        ensures
            final(self).wf(),
            steps_to(step, finish(old(self)@), final(self)@),
    {
        let output_path = self.output_path();
        self.phase = Phase::Stopped;
        let events = vec![
            SchedulerEvent::StateChange(DownloadState::Assembling),
            SchedulerEvent::Complete { output_path },
        ];
        assert(each_event(events@) =~= finish(old(self)@).events);
        Step { events, action: Action::Stop(Ok(())) }
    }

    /// The directory that the file goes to.
    fn output_dir(&self) -> (dir: FilePath)
        ensures
            dir@ == dir_for(self@),
    {
        match &self.task.options.dir {
            Some(dir) => dir.clone(),
            None => self.config.download_dir.clone(),
        }
    }

    /// The path of the file.
    fn output_path(&self) -> (file: FilePath)
        requires
            self@.task.urls.len() > 0,
        ensures
            file@ == path_for(self@),
    {
        let dir = self.output_dir();
        let name = match (&self.task.options.out, &self.filename) {
            (None, Some(name)) => name.clone(),
            _ => self.task.infer_filename(),
        };
        dir.join(name.as_str())
    }

    /// How the file is to be downloaded.
    fn plan(&self, kept: bool) -> (plan: Plan)
        requires
            divisible(
                self@.task.total_bytes,
                self@.config.min_split_size,
                task_split(self@, self@.task.accepts_ranges),
            ),
        ensures
            plan@ == plan_for(self@, kept),
    {
        let split: usize = effective_split(
            self.task.accepts_ranges,
            self.task.options.split,
            self.config.split,
        );
        let max_connections: usize = match self.task.options.max_connections {
            Some(n) => n,
            None => self.config.max_connections_per_server,
        };
        Plan {
            chunk_map: match (kept, &self.task.chunk_map) {
                (true, Some(map)) => map.clone(),
                _ => plan_chunks(self.task.total_bytes, self.config.min_split_size, split),
            },
            urls: text::copy_strings(&self.task.urls),
            max_connections,
            sequential: self.task.options.sequential,
            work_stealing: self.config.work_stealing,
            max_retries: self.config.max_retries,
            retry_delay_ms: self.config.retry_delay_ms,
            chunk_size: self.config.chunk_size,
        }
    }
}

// ─── Laws ────────────────────────────────────────────────────────────────────

/// The step reports completion.
pub open spec fn completes(step: StepView) -> bool {
    exists|i: int| 0 <= i < step.events.len() && (#[trigger] step.events[i]) is Complete
}

/// A download is reported complete only after its download loop ended in success
/// and, where a checksum was asked for, only if the file that was read back has
/// it. (The loop counts a chunk as fetched whole when a worker has finished it;
/// that the bytes are right is what the checksum shows.)
pub proof fn completion_is_verified(s: SchedulerView, input: InputView)
    requires
        answers(s, input),
        completes(step_of(s, input)),
    ensures
        step_of(s, input).action == ActionView::Stop(Ok(())),
        match s.task.options.checksum {
            None => {
                ||| s.phase is Downloading && input matches InputView::Downloaded(Ok(_))
                ||| s.phase is Verifying && input matches InputView::FileRead(Ok(_))
            },
            Some(expected) => {
                &&& s.phase == Phase::Verifying
                &&& input matches InputView::FileRead(Ok(data)) && checksum::accepts(
                    expected.value,
                    checksum::digest_of(expected.algorithm, data),
                )
            },
        },
{
    let step = step_of(s, input);
    let i = choose|i: int| 0 <= i < step.events.len() && (#[trigger] step.events[i]) is Complete;
    assert(step.events[i] is Complete);
}

/// Success and completion go together: the lifecycle ends without an error
/// exactly in the step that reports completion.
pub proof fn success_means_completion(s: SchedulerView, input: InputView)
    requires
        answers(s, input),
    ensures
        step_of(s, input).action == ActionView::Stop(Ok(())) <==> completes(step_of(s, input)),
{
    let step = step_of(s, input);
    if step.action == ActionView::Stop(Ok(())) {
        assert(step.events[1] is Complete);
    }
    if completes(step) {
        completion_is_verified(s, input);
    }
}

/// How many steps are left at most.
pub open spec fn steps_left(s: SchedulerView) -> int {
    match s.phase {
        Phase::Probing { tried } => s.task.urls.len() - tried + 5,
        Phase::MakingDir => 5,
        Phase::CheckingSpace => 4,
        Phase::Allocating => 3,
        Phase::Downloading => 2,
        Phase::Verifying => 1,
        Phase::Stopped => 0,
    }
}

/// The lifecycle only moves forward: every step leaves fewer steps, none goes
/// back, and it is over exactly when there is nothing left to do.
pub proof fn lifecycle_moves_forward(s: SchedulerView, input: InputView)
    requires
        consistent(s),
        answers(s, input),
        s.task.urls.len() <= usize::MAX,
    ensures
        consistent(step_of(s, input).after),
        0 <= steps_left(step_of(s, input).after) < steps_left(s),
        step_of(s, input).after.phase is Stopped <==> step_of(s, input).action is Stop,
{
    if let InputView::Probed(Ok(probe)) = input {
        lemma_kept_chunks_are_usable(s.task, probe);
    }
}

/// URLs are probed in their order, and the file is planned by the first that
/// answers.
pub proof fn probes_follow_the_url_order(s: SchedulerView, tried: usize, input: InputView)
    requires
        s.phase == (Phase::Probing { tried }),
        tried < s.task.urls.len() <= usize::MAX,
        answers(s, input),
    ensures
        input matches InputView::Probed(Err(_)) && tried + 1 < s.task.urls.len() ==> step_of(
            s,
            input,
        ).action == (ActionView::Probe { url: s.task.urls[tried + 1] }),
        input matches InputView::Probed(Ok(probe)) ==> {
            let after = step_of(s, input).after;
            &&& after.phase is MakingDir
            &&& after.task.total_bytes == probe.content_length
            &&& after.task.accepts_ranges == probe.accepts_ranges
        },
{
}

/// Every plan can be carried out: whether the file is fetched afresh or an earlier
/// run is resumed, no range is empty, each chunk stands at its index, none is in
/// flight, and those marked complete are done; and where the size is known, the
/// chunks cover every byte once. (A file of no bytes is planned as one byte.)
pub proof fn every_plan_can_start(s: SchedulerView, kept: bool)
    requires
        consistent(s),
        s.phase is Allocating,
    ensures
        download::startable(plan_for(s, kept).chunks),
        s.task.total_bytes matches Some(len) ==> len > 0 ==> chunk::partitions(
            plan_for(s, kept).chunks,
            len as int,
        ),
{
    let chunks = plan_for(s, kept).chunks;
    let split = task_split(s, s.task.accepts_ranges);
    if !(kept && s.task.chunk_map is Some) {
        if let Some(len) = s.task.total_bytes {
            plans_cover_the_file(len, s.config.min_split_size, split);
        }
        assert forall|i: int| 0 <= i < chunks.len() implies (#[trigger] chunks[i]).state
            is Pending by {}
    } else {
        assert forall|i: int| 0 <= i < chunks.len() implies (#[trigger] chunks[i]).is_ranged() by {
            assert(chunks[i].is_sized());
        }
    }
    download::none_in_flight(chunks);
}

/// A resumed download takes up where the earlier one was: if the file is the same
/// and is still there, its chunks have the ranges they had, and what was
/// downloaded of each, up to its length, is not fetched again.
pub proof fn resuming_takes_up_the_chunks(s: SchedulerView, probe: ProbeView)
    requires
        s.task.chunk_map is Some,
        probe.accepts_ranges,
        same_file(s.task, probe),
        resume::fits(s.task.chunk_map->0, probe.content_length->0 as int),
    ensures
        ({
            let before = s.task.chunk_map->0;
            let after = plan_for(informed(s, probe), true).chunks;
            &&& after.len() == before.len()
            &&& forall|i: int|
                0 <= i < before.len() ==> {
                    let c = #[trigger] after[i];
                    &&& c.start == before[i].start && c.end == before[i].end
                    &&& before[i].downloaded <= before[i].length() ==> c.downloaded
                        == before[i].downloaded
                    &&& before[i].downloaded >= before[i].length() ==> c.done()
                }
        }),
{
    let before = s.task.chunk_map->0;
    resume::reviving_keeps_what_was_downloaded(before, probe.content_length->0 as int);
    let after = plan_for(informed(s, probe), true).chunks;
    assert(after == resume::all_revived(before));
    assert forall|i: int| 0 <= i < before.len() implies {
        let c = #[trigger] after[i];
        before[i].downloaded >= before[i].length() ==> c.done()
    } by {
        assert(before[i].is_sized());
    }
}

/// A file that has changed, or of which that cannot be told, is fetched afresh.
pub proof fn a_changed_file_is_fetched_afresh(s: SchedulerView, probe: ProbeView, kept: bool)
    requires
        !same_file(s.task, probe),
    ensures
        informed(s, probe).task.chunk_map is None,
        plan_for(informed(s, probe), kept).chunks == chunks_for(
            probe.content_length,
            s.config.min_split_size,
            task_split(s, probe.accepts_ranges),
        ),
{
}

/// The directory that was asked for, else the default one.
pub open spec fn asked_dir(s: SchedulerView, dir: Seq<u8>) -> bool {
    &&& s.task.options.dir is Some ==> dir == s.task.options.dir->0
    &&& s.task.options.dir is None ==> dir == s.config.download_dir.bytes@
}

/// The lifecycle begins by telling that it probes, and with the first URL; without any
/// URL it ends in an error that is told, too. Nothing of the task changes.
pub proof fn a_lifecycle_begins_with_the_first_url(
    s: SchedulerView,
    step: Step,
    after: SchedulerView,
)
    requires
        steps_to(step, start_of(s), after),
    ensures
        after.task == s.task && after.config == s.config && after.filename == s.filename,
        step.events@.len() > 0,
        step.events@[0] == SchedulerEvent::StateChange(DownloadState::Probing),
        s.task.urls.len() > 0 ==> {
            &&& step.action is Probe
            &&& step.action->Probe_url@ == s.task.urls[0]
            &&& after.phase == (Phase::Probing { tried: 0 })
            &&& step.events@.len() == 1
        },
        s.task.urls.len() == 0 ==> {
            &&& step.action is Stop
            &&& step.action->Stop_0 is Err
            &&& after.phase == Phase::Stopped
            &&& step.events@.len() == 2
            &&& step.events@[1] is Error
            &&& step.events@[1]->Error_0@ == step.action->Stop_0->Err_0@
        },
{
    let events = each_event(step.events@);
    assert(events[0] == step.events@[0]@);
    assert(step.events@[0] is StateChange);
    assert(step.events@[0]->StateChange_0 is Probing);
    if s.task.urls.len() == 0 {
        assert(events[1] == step.events@[1]@);
    }
}

/// After a URL that could not be probed the next one is probed, in their order; after
/// the last, the lifecycle ends in an error that is told, too. The first answer tells
/// the file's size, whether ranges are taken, its validators and its suggested name;
/// what was asked for stays; and the directory is made that was asked for, or else the
/// default one.
pub proof fn the_first_answer_describes_the_file(
    s: SchedulerView,
    tried: usize,
    input: Input,
    step: Step,
    after: SchedulerView,
)
    requires
        s.phase == (Phase::Probing { tried }),
        tried < s.task.urls.len() <= usize::MAX,
        input is Probed,
        steps_to(step, step_of(s, input@), after),
    ensures
        after.config == s.config,
        after.task.urls == s.task.urls,
        after.task.options == s.task.options,
        after.task.id == s.task.id,
        input->Probed_0 is Err && tried + 1 < s.task.urls.len() ==> {
            &&& step.action is Probe
            &&& step.action->Probe_url@ == s.task.urls[tried + 1]
            &&& after.phase == (Phase::Probing { tried: (tried + 1) as usize })
            &&& after.task == s.task
            &&& step.events@.len() == 0
        },
        input->Probed_0 is Err && tried + 1 == s.task.urls.len() ==> {
            &&& step.action is Stop
            &&& step.action->Stop_0 is Err
            &&& step.events@.len() == 1
            &&& step.events@[0] is Error
            &&& step.events@[0]->Error_0@ == step.action->Stop_0->Err_0@
        },
        input->Probed_0 matches Ok(probe) ==> {
            &&& step.action is CreateDir
            &&& asked_dir(s, step.action->CreateDir_dir.bytes@)
            &&& after.phase == Phase::MakingDir
            &&& after.task.total_bytes == probe.content_length
            &&& after.task.accepts_ranges == probe.accepts_ranges
            &&& after.task.etag == text::opt(probe.etag)
            &&& after.task.last_modified == text::opt(probe.last_modified)
            &&& after.filename == text::opt(probe.filename)
            &&& step.events@.len() == 1
            &&& step.events@[0] is Found
            &&& step.events@[0]->Found_0.total_bytes == probe.content_length
            &&& step.events@[0]->Found_0.accepts_ranges == probe.accepts_ranges
            &&& text::opt(step.events@[0]->Found_0.etag) == text::opt(probe.etag)
            &&& text::opt(step.events@[0]->Found_0.last_modified) == text::opt(
                probe.last_modified,
            )
            &&& step.events@[0]->Found_0.output_path.bytes@ == path_for(after)
            &&& after.task.chunk_map is None <==> step.events@[0]->Found_0.chunk_map is None
            &&& after.task.chunk_map matches Some(chunks)
                ==> step.events@[0]->Found_0.chunk_map->0.chunks@ == chunks
        },
{
    let events = each_event(step.events@);
    assert(events.len() == step.events@.len());
    if events.len() > 0 {
        assert(events[0] == step.events@[0]@);
    }
}

/// The file is written where it was asked for: a name that is not absolute goes below
/// the directory, behind one separator; and the name is the one that was asked for,
/// else the one that the server suggests, else the last segment of the first URL's
/// path, if there is one.
pub proof fn the_file_goes_where_it_was_asked_for(s: SchedulerView)
    ensures
        asked_dir(s, dir_for(s)),
        s.task.options.out matches Some(out) ==> name_for(s) == out,
        s.task.options.out is None && s.filename is Some ==> name_for(s) == s.filename->0,
        s.task.options.out is None && s.filename is None ==> {
            let segments = urls::segments_of(s.task.urls[0]);
            &&& segments is Some && segments->0.len() > 0 && segments->0.last().len() > 0
                ==> name_for(s) == segments->0.last()
            &&& name_for(s).len() > 0
        },
        ({
            let dir = dir_for(s);
            let name = vstd::utf8::encode_utf8(name_for(s));
            &&& name.len() > 0 && name[0] == 0x2f ==> path_for(s) == name
            &&& !(name.len() > 0 && name[0] == 0x2f) ==> {
                &&& dir.len() + name.len() <= path_for(s).len() <= dir.len() + name.len() + 1
                &&& path_for(s).take(dir.len() as int) == dir
                &&& path_for(s).skip(path_for(s).len() - name.len()) == name
                &&& path_for(s).len() == dir.len() + name.len() + 1 ==> path_for(
                    s,
                )[dir.len() as int] == 0x2f
            }
        }),
{
    path::a_joined_path_has_both_parts(dir_for(s), path::written(name_for(s)));
    reveal_strlit("download");
}

/// Once the directory is made, the space is looked up below it where the size is
/// known, and otherwise the file is created at once; a directory that could not be made
/// ends the lifecycle with that error.
pub proof fn a_made_directory_leads_on(
    s: SchedulerView,
    input: Input,
    step: Step,
    after: SchedulerView,
)
    requires
        s.phase == Phase::MakingDir,
        input is DirCreated,
        steps_to(step, step_of(s, input@), after),
    ensures
        after.task == s.task && after.config == s.config && after.filename == s.filename,
        step.events@.len() == 0,
        input->DirCreated_0 is Ok && s.task.total_bytes is Some ==> {
            &&& step.action is CheckSpace
            &&& asked_dir(s, step.action->CheckSpace_dir.bytes@)
            &&& after.phase == Phase::CheckingSpace
        },
        input->DirCreated_0 is Ok && s.task.total_bytes is None ==> {
            &&& step.action is Allocate
            &&& step.action->Allocate_path.bytes@ == path_for(s)
            &&& step.action->space == Space::Growing
            &&& after.phase == Phase::Allocating
        },
        input->DirCreated_0 matches Err(e) ==> {
            &&& step.action is Stop
            &&& step.action->Stop_0 is Err
            &&& step.action->Stop_0->Err_0@ == e@
            &&& after.phase == Phase::Stopped
        },
{
    assert(each_event(step.events@).len() == step.events@.len());
}

/// The file is created only where there is room for it: too little space, or none that
/// could be found out, ends the lifecycle with an error that is told, too. It is created
/// at its path and with its size; the file of an earlier run is kept if it is long
/// enough to hold what was downloaded.
pub proof fn a_file_is_created_where_there_is_room(
    s: SchedulerView,
    input: Input,
    step: Step,
    after: SchedulerView,
)
    requires
        s.phase == Phase::CheckingSpace,
        s.task.total_bytes is Some,
        input is Space,
        steps_to(step, step_of(s, input@), after),
    ensures
        after.task == s.task && after.config == s.config && after.filename == s.filename,
        step.action is Allocate <==> input->Space_0 is Ok && s.task.total_bytes->0
            <= input->Space_0->Ok_0,
        step.action is Allocate ==> {
            &&& step.events@.len() == 0
            &&& after.phase == Phase::Allocating
            &&& step.action->Allocate_path.bytes@ == path_for(s)
            &&& s.config.file_allocation == FileAllocation::Prealloc ==> step.action->space
                == Space::Length(s.task.total_bytes->0)
            &&& s.config.file_allocation == FileAllocation::Falloc ==> step.action->space
                == Space::Reserved(s.task.total_bytes->0)
            &&& s.config.file_allocation == FileAllocation::Unallocated ==> step.action->space
                == Space::Growing
            &&& step.action->keep is Some <==> s.task.chunk_map is Some
            &&& s.task.chunk_map matches Some(chunks) ==> (0 <= resume::reach(chunks) <= u64::MAX
                ==> step.action->keep->0 == resume::reach(chunks))
        },
        !(step.action is Allocate) ==> {
            &&& step.action is Stop
            &&& step.action->Stop_0 is Err
            &&& after.phase == Phase::Stopped
            &&& step.events@.len() == 1
            &&& step.events@[0] is Error
            &&& step.events@[0]->Error_0@ == step.action->Stop_0->Err_0@
            &&& input->Space_0 matches Err(e) ==> step.action->Stop_0->Err_0@ == e@
        },
{
    let events = each_event(step.events@);
    assert(events.len() == step.events@.len());
    if events.len() > 0 {
        assert(events[0] == step.events@[0]@);
    }
}

/// A file that was created is downloaded, to the same path and from every URL of the
/// task, in their order; with the task's own connections, or else the default ones, and
/// with what is configured for retries, stealing and requests. The chunks are those that
/// were kept, if their file was, and otherwise fresh ones; and they are told.
pub proof fn a_download_uses_every_url(
    s: SchedulerView,
    input: Input,
    step: Step,
    after: SchedulerView,
)
    requires
        s.phase == Phase::Allocating,
        input is Allocated,
        steps_to(step, step_of(s, input@), after),
    ensures
        after.task == s.task && after.config == s.config && after.filename == s.filename,
        input->Allocated_0 matches Err(e) ==> {
            &&& step.action is Stop
            &&& step.action->Stop_0 is Err
            &&& step.action->Stop_0->Err_0@ == e@
            &&& step.events@.len() == 0
        },
        input->Allocated_0 matches Ok(kept) ==> {
            let plan = step.action->plan;
            &&& step.action is Download
            &&& after.phase == Phase::Downloading
            &&& step.action->Download_path.bytes@ == path_for(s)
            &&& plan.urls@.len() == s.task.urls.len()
            &&& forall|i: int|
                0 <= i < s.task.urls.len() ==> (#[trigger] plan.urls@[i])@ == s.task.urls[i]
            &&& forall|delay: u64|
                (#[trigger] crate::engine::mirror::fresh_pool(
                    plan.urls@,
                    plan.max_connections,
                    delay,
                )).mirrors.len() == s.task.urls.len()
            &&& s.task.options.max_connections matches Some(n) ==> plan.max_connections == n
            &&& s.task.options.max_connections is None ==> plan.max_connections
                == s.config.max_connections_per_server
            &&& plan.sequential == s.task.options.sequential
            &&& plan.work_stealing == s.config.work_stealing
            &&& plan.max_retries == s.config.max_retries
            &&& plan.retry_delay_ms == s.config.retry_delay_ms
            &&& plan.chunk_size == s.config.chunk_size
            &&& kept && s.task.chunk_map is Some ==> plan.chunk_map.chunks@ == s.task.chunk_map->0
            &&& !(kept && s.task.chunk_map is Some) ==> {
                &&& s.task.total_bytes is None ==> plan.chunk_map.chunks@.len() == 1
                    && plan.chunk_map.chunks@[0].start == 0 && plan.chunk_map.chunks@[0].end
                    == u64::MAX
                &&& forall|i: int|
                    0 <= i < plan.chunk_map.chunks@.len() ==> (
                    #[trigger] plan.chunk_map.chunks@[i]).downloaded == 0
                &&& !s.task.accepts_ranges ==> plan.chunk_map.chunks@.len() == 1
            }
            &&& step.events@.len() == 2
            &&& step.events@[0] is Chunks
            &&& step.events@[0]->Chunks_0.chunks@ == plan.chunk_map.chunks@
            &&& step.events@[1] == SchedulerEvent::StateChange(DownloadState::Active)
        },
{
    let events = each_event(step.events@);
    assert(events.len() == step.events@.len());
    if let Ok(kept) = input->Allocated_0 {
        assert(events[0] == step.events@[0]@);
        assert(events[1] == step.events@[1]@);
        assert(step.events@[1] is StateChange);
        assert(step.events@[1]->StateChange_0 is Active);
        let plan = step.action->plan;
        assert(text::each(plan.urls@).len() == plan.urls@.len());
        assert forall|i: int| 0 <= i < s.task.urls.len() implies (#[trigger] plan.urls@[i])@
            == s.task.urls[i] by {
            assert(text::each(plan.urls@)[i] == plan.urls@[i]@);
        }
    }
}

/// A download that ended well is complete, unless a checksum was asked for: then the
/// file is read back first, from where it was written. One that did not ends with its
/// error.
pub proof fn a_finished_download_is_verified_or_complete(
    s: SchedulerView,
    input: Input,
    step: Step,
    after: SchedulerView,
)
    requires
        s.phase == Phase::Downloading,
        input is Downloaded,
        steps_to(step, step_of(s, input@), after),
    ensures
        after.task == s.task && after.config == s.config && after.filename == s.filename,
        input->Downloaded_0 is Ok && s.task.options.checksum is Some ==> {
            &&& step.action is ReadFile
            &&& step.action->ReadFile_path.bytes@ == path_for(s)
            &&& after.phase == Phase::Verifying
            &&& step.events@.len() == 0
        },
        input->Downloaded_0 is Ok && s.task.options.checksum is None ==> {
            &&& step.action is Stop
            &&& step.action->Stop_0 is Ok
            &&& after.phase == Phase::Stopped
            &&& step.events@.len() == 2
            &&& step.events@[0] == SchedulerEvent::StateChange(DownloadState::Assembling)
            &&& step.events@[1] is Complete
            &&& step.events@[1]->Complete_output_path.bytes@ == path_for(s)
        },
        input->Downloaded_0 matches Err(e) ==> {
            &&& step.action is Stop
            &&& step.action->Stop_0 is Err
            &&& step.action->Stop_0->Err_0@ == e@
            &&& step.events@.len() == 0
        },
{
    let events = each_event(step.events@);
    assert(events.len() == step.events@.len());
    if events.len() == 2 {
        assert(events[0] == step.events@[0]@);
        assert(events[1] == step.events@[1]@);
        assert(step.events@[0] is StateChange);
        assert(step.events@[0]->StateChange_0 is Assembling);
    }
}

/// A file that was read back is complete exactly if its digest, written in hexadecimal
/// digits, is the checksum that was asked for, put in lower case; a file that
/// differs, or could not be read, ends the lifecycle in an error.
pub proof fn a_file_that_was_read_back_has_its_checksum(
    s: SchedulerView,
    input: Input,
    step: Step,
    after: SchedulerView,
)
    requires
        s.phase == Phase::Verifying,
        s.task.options.checksum is Some,
        input is FileRead,
        steps_to(step, step_of(s, input@), after),
    ensures
        after.task == s.task && after.config == s.config && after.filename == s.filename,
        after.phase == Phase::Stopped,
        step.action is Stop,
        input->FileRead_0 matches Err(e) ==> step.action->Stop_0 is Err
            && step.action->Stop_0->Err_0@ == e@,
        input->FileRead_0 matches Ok(data) ==> {
            let expected = s.task.options.checksum->0;
            let digest = match expected.algorithm {
                task::ChecksumAlgo::Sha256 => checksum::sha256_of(data@),
                task::ChecksumAlgo::Sha1 => checksum::sha1_of(data@),
                task::ChecksumAlgo::Md5 => checksum::md5_of(data@),
            };
            &&& step.action->Stop_0 is Ok <==> text::unicode_lowercase(expected.value)
                == checksum::hex_of(digest)
            &&& step.action->Stop_0 is Ok ==> {
                &&& step.events@.len() == 2
                &&& step.events@[0] == SchedulerEvent::StateChange(DownloadState::Assembling)
                &&& step.events@[1] is Complete
                &&& step.events@[1]->Complete_output_path.bytes@ == path_for(s)
            }
            &&& step.action->Stop_0 is Err ==> step.events@.len() == 0
        },
{
    let events = each_event(step.events@);
    assert(events.len() == step.events@.len());
    if events.len() == 2 {
        assert(events[0] == step.events@[0]@);
        assert(events[1] == step.events@[1]@);
        assert(step.events@[0] is StateChange);
        assert(step.events@[0]->StateChange_0 is Assembling);
    }
}

/// A file is divided where the server takes ranges, the file is at least as large as a
/// divided one has to be, and more than one chunk is asked for, of the task or else by
/// default: then into no more chunks than that, together as long as the file. Otherwise
/// it is one chunk, from the first byte to the last, or without an end where the size is
/// not known.
pub proof fn large_files_are_divided(
    accepts_ranges: bool,
    task_split: Option<usize>,
    default_split: usize,
    content_length: Option<u64>,
    min_split_size: u64,
)
    requires
        content_length matches Some(len) ==> 0 < len && len + usize::MAX <= u64::MAX || len
            < min_split_size,
    ensures
        ({
            let asked = match task_split {
                Some(n) => n,
                None => default_split,
            };
            let split = split_for(accepts_ranges, task_split, default_split);
            let chunks = chunks_for(content_length, min_split_size, split);
            let divided = accepts_ranges && asked > 1 && (content_length matches Some(len) && len
                >= min_split_size);
            &&& chunks.len() > 0
            &&& chunks[0].start == 0
            &&& accepts_ranges ==> split == asked
            &&& !accepts_ranges ==> split == 1
            &&& !divided ==> chunks.len() == 1
            &&& content_length is None ==> chunks[0].end == u64::MAX
            &&& divided ==> chunks.len() <= asked && chunks.len() * (chunks[0].end
                - chunks[0].start + 1) >= content_length->0 && asked * (chunks[0].end
                - chunks[0].start) < content_length->0
            &&& content_length matches Some(len) ==> len > 0 ==> chunks.last().end == len - 1
            &&& forall|i: int|
                0 <= i < chunks.len() ==> {
                    &&& (#[trigger] chunks[i]).state == ChunkState::Pending
                    &&& chunks[i].downloaded == 0
                    &&& chunks[i].index == i
                }
        }),
{
    let asked = match task_split {
        Some(n) => n,
        None => default_split,
    };
    let split = split_for(accepts_ranges, task_split, default_split);
    if divides(content_length, min_split_size, split) {
        let len = content_length->0 as int;
        let n = split as int;
        chunk::a_file_is_divided_evenly(len, n);
        chunk::division_bounds(len, n);
        let size = chunk::chunk_size(len, n);
        let count = chunk::chunk_count(len, n);
        assert(count * size >= len) by (nonlinear_arith)
            requires
                0 < size,
                0 < len,
                count == (len + size - 1) / size,
        ;
        let first = chunk::nth_chunk(len, n, 0);
        assert(first.end - first.start + 1 == size) by {
            assert(0 * size == 0 && (0 + 1) * size == size) by (nonlinear_arith);
        }
    }
}

/// A response is read for what it says: the length where it is a number, ranges where
/// they are counted in bytes, and its validators as they stand.
pub proof fn a_probe_reads_the_headers(response: HeadResponse)
    ensures
        ({
            let probe = probed(response);
            &&& response.content_length is None ==> probe.content_length is None
            &&& response.content_length matches Some(length) ==> probe.content_length
                == text::parsed_u64(length@)
            &&& probe.accepts_ranges <==> response.accept_ranges is Some && text::ascii_lowered(
                response.accept_ranges->0@,
            ) == "bytes"@
            &&& probe.etag == text::opt(response.etag)
            &&& probe.last_modified == text::opt(response.last_modified)
            &&& probe.is_http2 == response.is_http2
            &&& response.content_disposition is None ==> probe.filename is None
            &&& response.content_disposition matches Some(header) ==> probe.filename
                == disposition::suggested(header@)
        }),
{
}

/// Chunks are used again only of the same file: where the server takes ranges, the size
/// is the same and known, and so are both validators, of which there is at least one;
/// and only if they are the chunks of a file of that size. Then none of their bytes is
/// asked for again.
pub proof fn only_the_same_file_is_resumed(t: TaskView, probe: ProbeView)
    ensures
        kept_chunks(t, probe) is Some <==> {
            &&& t.chunk_map is Some
            &&& probe.accepts_ranges
            &&& probe.content_length is Some
            &&& t.total_bytes == probe.content_length
            &&& t.etag == probe.etag
            &&& t.last_modified == probe.last_modified
            &&& t.etag is Some || t.last_modified is Some
            &&& resume::fits(t.chunk_map->0, probe.content_length->0 as int)
        },
        kept_chunks(t, probe) matches Some(chunks) ==> {
            &&& chunks.len() == t.chunk_map->0.len()
            &&& forall|i: int|
                0 <= i < chunks.len() ==> {
                    let c = #[trigger] chunks[i];
                    let before = t.chunk_map->0[i];
                    &&& c.start == before.start && c.end == before.end && c.index == before.index
                    &&& before.downloaded <= before.end - before.start ==> c.downloaded
                        == before.downloaded && c.state == ChunkState::Pending
                    &&& before.downloaded > before.end - before.start ==> c.downloaded == before.end
                        - before.start + 1 && c.state == ChunkState::Complete
                }
        },
{
    if let Some(chunks) = kept_chunks(t, probe) {
        let before = t.chunk_map->0;
        assert forall|i: int| 0 <= i < chunks.len() implies {
            let c = #[trigger] chunks[i];
            let b = before[i];
            &&& c.start == b.start && c.end == b.end && c.index == b.index
            &&& b.downloaded <= b.end - b.start ==> c.downloaded == b.downloaded && c.state
                == ChunkState::Pending
            &&& b.downloaded > b.end - b.start ==> c.downloaded == b.end - b.start + 1 && c.state
                == ChunkState::Complete
        } by {
            assert(before[i].is_sized());
        }
    }
}

/// An input is taken in the phase that waits for it, and in no other; a probe only if
/// the file that it found can be divided as it is asked for.
pub proof fn inputs_answer_their_actions(s: SchedulerView, input: Input)
    ensures
        answers(s, input@) ==> match s.phase {
            Phase::Probing { .. } => input is Probed,
            Phase::MakingDir => input is DirCreated,
            Phase::CheckingSpace => input is Space,
            Phase::Allocating => input is Allocated,
            Phase::Downloading => input is Downloaded,
            Phase::Verifying => input is FileRead,
            Phase::Stopped => false,
        },
        s.phase is MakingDir && input is DirCreated ==> answers(s, input@),
        s.phase is CheckingSpace && input is Space ==> answers(s, input@),
        s.phase is Allocating && input is Allocated ==> answers(s, input@),
        s.phase is Downloading && input is Downloaded ==> answers(s, input@),
        s.phase is Verifying && input is FileRead ==> answers(s, input@),
        s.phase is Probing && input is Probed && input->Probed_0 is Err ==> answers(s, input@),
        s.phase is Probing && input is Probed && input->Probed_0 is Ok ==> {
            let length = input->Probed_0->Ok_0.content_length;
            &&& length is None ==> answers(s, input@)
            &&& length matches Some(len) ==> (len < s.config.min_split_size || (0 < len && len
                + usize::MAX <= u64::MAX) ==> answers(s, input@))
        },
{
}

/// An event is seen whole: what was found, the chunks, the progress, the state, where the
/// file is, or what went wrong.
pub proof fn events_are_seen_whole(a: SchedulerEvent, b: SchedulerEvent)
    requires
        a@ == b@,
    ensures
        a matches SchedulerEvent::Found(f) ==> b matches SchedulerEvent::Found(g) && {
            &&& f.total_bytes == g.total_bytes
            &&& f.accepts_ranges == g.accepts_ranges
            &&& f.etag is Some <==> g.etag is Some
            &&& f.etag is Some ==> f.etag->0@ == g.etag->0@
            &&& f.last_modified is Some <==> g.last_modified is Some
            &&& f.last_modified is Some ==> f.last_modified->0@ == g.last_modified->0@
            &&& f.output_path.bytes@ == g.output_path.bytes@
            &&& f.chunk_map is Some <==> g.chunk_map is Some
            &&& f.chunk_map is Some ==> f.chunk_map->0.chunks@ == g.chunk_map->0.chunks@
        },
        a matches SchedulerEvent::Chunks(m) ==> b matches SchedulerEvent::Chunks(n) && m.chunks@
            == n.chunks@,
        a matches SchedulerEvent::Progress { downloaded, speed_bps, connections } ==> b == a,
        a matches SchedulerEvent::StateChange(s) ==> b matches SchedulerEvent::StateChange(t) && s@
            == t@,
        a matches SchedulerEvent::Complete { output_path: p } ==> b matches SchedulerEvent::Complete {
            output_path: q,
        } && p.bytes@ == q.bytes@,
        a matches SchedulerEvent::Error(e) ==> b matches SchedulerEvent::Error(f) && e@ == f@,
{
    if let SchedulerEvent::Found(f) = a {
        if let SchedulerEvent::Found(g) = b {
            assert(f@ == g@);
            text::strings_are_seen_by_their_characters(f.etag, Seq::empty(), Seq::empty());
            text::strings_are_seen_by_their_characters(g.etag, Seq::empty(), Seq::empty());
            text::strings_are_seen_by_their_characters(f.last_modified, Seq::empty(), Seq::empty());
            text::strings_are_seen_by_their_characters(g.last_modified, Seq::empty(), Seq::empty());
        }
    }
}

/// Events are seen one by one, in order.
pub proof fn events_are_seen_in_order(events: Seq<SchedulerEvent>)
    ensures
        each_event(events).len() == events.len(),
        forall|i: int| 0 <= i < events.len() ==> #[trigger] each_event(events)[i] == events[i]@,
{
}

} // verus!
