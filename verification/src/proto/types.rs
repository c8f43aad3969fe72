//! Requests and responses.

use crate::engine::task;
use crate::engine::task::{DownloadProgress, DownloadState, DownloadTask, ProgressView, StateView, TaskView};
use crate::path;
use crate::text;
use vstd::prelude::*;

verus! {

// ─── Requests ────────────────────────────────────────────────────────────────

/// The request to add a download.
#[derive(Debug)]
pub struct AddUriRequest {
    /// Primary URL + optional mirrors
    pub uris: Vec<String>,
    pub options: AddOptions,
}

/// The options of a request to add a download.
#[derive(Debug)]
pub struct AddOptions {
    pub out: Option<String>,
    pub dir: Option<String>,
    pub split: Option<usize>,
    pub max_connection_per_server: Option<usize>,
    pub checksum: Option<String>,
    pub max_download_limit: Option<u64>,
    pub header: Option<Vec<String>>,
    pub referer: Option<String>,
    pub sequential_download: Option<bool>,
}

impl Default for AddOptions {
    fn default() -> (options: Self)
        ensures
            options.out is None,
            options.dir is None,
            options.split is None,
            options.max_connection_per_server is None,
            options.checksum is None,
            options.max_download_limit is None,
            options.header is None,
            options.referer is None,
            options.sequential_download is None,
    {
        AddOptions {
            out: None,
            dir: None,
            split: None,
            max_connection_per_server: None,
            checksum: None,
            max_download_limit: None,
            header: None,
            referer: None,
            sequential_download: None,
        }
    }
}

/// A request about one task.
#[derive(Debug)]
pub struct TaskIdRequest {
    pub gid: String,
}

// ─── Responses ───────────────────────────────────────────────────────────────

/// The identifier of a new download.
#[derive(Debug)]
pub struct AddUriResponse {
    pub gid: String,
}

/// A source, with its text in view.
pub struct UriView {
    pub uri: Seq<char>,
    pub status: Seq<char>,
}

/// Where a file comes from.
#[derive(Debug)]
pub struct UriInfo {
    pub uri: String,
    pub status: String,
}

impl View for UriInfo {
    type V = UriView;

    open spec fn view(&self) -> UriView {
        UriView { uri: self.uri@, status: self.status@ }
    }
}

/// A file, with all text in view.
pub struct FileView {
    pub index: u32,
    pub path: Seq<char>,
    pub length: Seq<char>,
    pub completed_length: Seq<char>,
    pub selected: bool,
    pub uris: Seq<UriView>,
}

/// A file of a download.
#[derive(Debug)]
pub struct FileInfo {
    pub index: u32,
    pub path: String,
    pub length: String,
    pub completed_length: String,
    pub selected: bool,
    pub uris: Vec<UriInfo>,
}

impl View for FileInfo {
    type V = FileView;

    open spec fn view(&self) -> FileView {
        FileView {
            index: self.index,
            path: self.path@,
            length: self.length@,
            completed_length: self.completed_length@,
            selected: self.selected,
            uris: self.uris@.map_values(|u: UriInfo| u@),
        }
    }
}

/// A status, with all text in view.
pub struct StatusView {
    pub gid: Seq<char>,
    pub status: Seq<char>,
    pub total_length: Seq<char>,
    pub completed_length: Seq<char>,
    pub download_speed: Seq<char>,
    pub connections: u32,
    pub error_message: Option<Seq<char>>,
    pub files: Seq<FileView>,
}

/// The status of a download.
#[derive(Debug)]
pub struct StatusResponse {
    pub gid: String,
    pub status: String,
    pub total_length: String,
    pub completed_length: String,
    pub download_speed: String,
    pub connections: u32,
    pub error_message: Option<String>,
    pub files: Vec<FileInfo>,
}

impl View for StatusResponse {
    type V = StatusView;

    open spec fn view(&self) -> StatusView {
        StatusView {
            gid: self.gid@,
            status: self.status@,
            total_length: self.total_length@,
            completed_length: self.completed_length@,
            download_speed: self.download_speed@,
            connections: self.connections,
            error_message: text::opt(self.error_message),
            files: self.files@.map_values(|f: FileInfo| f@),
        }
    }
}

/// The number of downloads in each group.
#[derive(Debug)]
pub struct GlobalStatResponse {
    pub download_speed: String,
    pub num_active: u32,
    pub num_waiting: u32,
    pub num_stopped: u32,
}

/// A request was carried out.
#[derive(Debug)]
pub struct OkResponse {
    pub result: &'static str,
}

impl OkResponse {
    pub fn ok() -> (response: Self)
        ensures
            response.result@ == "OK"@,
    {
        OkResponse { result: "OK" }
    }
}

// ─── Conversions ─────────────────────────────────────────────────────────────

/// The word for a state.
pub open spec fn status_word(state: StateView) -> Seq<char> {
    match state {
        StateView::Queued => "waiting"@,
        StateView::Probing => "active"@,
        StateView::Active => "active"@,
        StateView::Paused => "paused"@,
        StateView::Assembling => "active"@,
        StateView::Complete => "complete"@,
        StateView::Error(_) => "error"@,
    }
}

/// The number in decimal; 0 where it is unknown.
pub open spec fn number_or_zero(n: Option<u64>) -> Seq<char> {
    text::decimal(
        match n {
            Some(n) => n as nat,
            None => 0,
        },
    )
}

/// The status of a task, with its progress if there is any.
pub open spec fn status_of(t: TaskView, progress: Option<ProgressView>) -> StatusView {
    let downloaded = number_or_zero(
        match progress {
            Some(p) => Some(p.downloaded_bytes),
            None => None,
        },
    );
    StatusView {
        gid: t.id,
        status: status_word(t.state),
        total_length: number_or_zero(t.total_bytes),
        completed_length: downloaded,
        download_speed: number_or_zero(
            match progress {
                Some(p) => Some(p.speed_bps),
                None => None,
            },
        ),
        connections: match progress {
            Some(p) => p.connections as u32,
            None => 0,
        },
        error_message: t.error_message,
        files: seq![
            FileView {
                index: 1,
                path: match t.output_path {
                    Some(file) => path::shown(file),
                    None => Seq::empty(),
                },
                length: number_or_zero(t.total_bytes),
                completed_length: downloaded,
                selected: true,
                uris: t.urls.map_values(|u: Seq<char>| UriView { uri: u, status: "used"@ }),
            },
        ],
    }
}

fn number_text(n: Option<u64>) -> (s: String)
    ensures
        s@ == number_or_zero(n),
{
    match n {
        Some(n) => text::decimal_string(n),
        None => text::decimal_string(0),
    }
}

/// The status of a task, with its progress if there is any.
pub fn task_to_status(task: &DownloadTask, progress: &Option<DownloadProgress>) -> (status:
    StatusResponse)
    ensures
        status@ == status_of(task@, task::progress_view(*progress)),
        status.gid@ == task.id.0@,
        task.total_bytes matches Some(n) ==> status.total_length@ == text::decimal(n as nat),
        task.total_bytes is None ==> status.total_length@ == text::decimal(0),
        progress matches Some(p) ==> {
            &&& status.completed_length@ == text::decimal(p.downloaded_bytes as nat)
            &&& status.download_speed@ == text::decimal(p.speed_bps as nat)
        },
        progress is None ==> {
            &&& status.completed_length@ == text::decimal(0)
            &&& status.download_speed@ == text::decimal(0)
        },
{
    let word: &str = match &task.state {
        DownloadState::Queued => "waiting",
        DownloadState::Probing => "active",
        DownloadState::Active => "active",
        DownloadState::Paused => "paused",
        DownloadState::Assembling => "active",
        DownloadState::Complete => "complete",
        DownloadState::Error(_) => "error",
    };
    let downloaded: Option<u64> = match progress {
        Some(p) => Some(p.downloaded_bytes),
        None => None,
    };
    let speed: Option<u64> = match progress {
        Some(p) => Some(p.speed_bps),
        None => None,
    };
    let connections: u32 = match progress {
        Some(p) => p.connections as u32,
        None => 0,
    };
    let path: String = match &task.output_path {
        Some(p) => p.display(),
        None => String::new(),
    };
    let mut uris: Vec<UriInfo> = Vec::new();
    let mut i: usize = 0;
    while i < task.urls.len()
        invariant
            i <= task.urls@.len(),
            uris@.len() == i,
            forall|k: int|
                0 <= k < i ==> (#[trigger] uris@[k])@ == (UriView {
                    uri: task.urls@[k]@,
                    status: "used"@,
                }),
        decreases task.urls@.len() - i,
    {
        uris.push(UriInfo { uri: task.urls[i].clone(), status: "used".to_string() });
        i += 1;
    }
    let file = FileInfo {
        index: 1,
        path,
        length: number_text(task.total_bytes),
        completed_length: number_text(downloaded),
        selected: true,
        uris,
    };
    let ghost expected = status_of(task@, task::progress_view(*progress));
    assert(file@.uris =~= expected.files[0].uris);
    let files = vec![file];
    let status = StatusResponse {
        gid: task.id.0.clone(),
        status: word.to_string(),
        total_length: number_text(task.total_bytes),
        completed_length: number_text(downloaded),
        download_speed: number_text(speed),
        connections,
        error_message: task.error_message.clone(),
        files,
    };
    assert(status@.files =~= expected.files);
    status
}

// ─── Laws ────────────────────────────────────────────────────────────────────

/// A status tells what is known of its task: its size, whatever the progress is, and 0
/// where it is not known; what is downloaded and how fast, by the latest report, and 0
/// without one; and its one file, with where that is written and where it comes from.
pub proof fn a_status_tells_what_is_known(
    task: DownloadTask,
    progress: Option<DownloadProgress>,
    status: StatusResponse,
)
    requires
        status@ == status_of(task@, task::progress_view(progress)),
    ensures
        status.gid@ == task.id.0@,
        task.total_bytes matches Some(n) ==> text::parsed_u64(status.total_length@) == Some(n),
        task.total_bytes is None ==> text::parsed_u64(status.total_length@) == Some(0u64),
        progress matches Some(p) ==> {
            &&& text::parsed_u64(status.completed_length@) == Some(p.downloaded_bytes)
            &&& text::parsed_u64(status.download_speed@) == Some(p.speed_bps)
            &&& p.connections <= u32::MAX ==> status.connections == p.connections
        },
        progress is None ==> {
            &&& text::parsed_u64(status.completed_length@) == Some(0u64)
            &&& text::parsed_u64(status.download_speed@) == Some(0u64)
            &&& status.connections == 0
        },
        task.error_message is Some <==> status.error_message is Some,
        task.error_message matches Some(e) ==> status.error_message->0@ == e@,
        status.files@.len() == 1,
        ({
            let file = status.files@[0];
            &&& file.index == 1 && file.selected
            &&& file.length@ == status.total_length@
            &&& file.completed_length@ == status.completed_length@
            &&& task.output_path matches Some(p) ==> file.path@ == path::shown(p.bytes@)
            &&& task.output_path is None ==> file.path@.len() == 0
            &&& file.uris@.len() == task.urls@.len()
            &&& forall|i: int|
                0 <= i < task.urls@.len() ==> (#[trigger] file.uris@[i]).uri@ == task.urls@[i]@
        }),
{
    if let Some(n) = task.total_bytes {
        text::decimal_round_trip(n);
    }
    if let Some(p) = progress {
        text::decimal_round_trip(p.downloaded_bytes);
        text::decimal_round_trip(p.speed_bps);
    }
    text::decimal_round_trip(0);
    let shown = status@.files;
    assert(shown.len() == status.files@.len());
    assert(shown[0] == status.files@[0]@);
    let file = status.files@[0];
    let expected = status_of(task@, task::progress_view(progress)).files[0].uris;
    assert(file@.uris == expected);
    assert(file@.uris.len() == file.uris@.len());
    assert(task@.urls.len() == task.urls@.len());
    assert forall|i: int| 0 <= i < task.urls@.len() implies (#[trigger] file.uris@[i]).uri@
        == task.urls@[i]@ by {
        assert(file@.uris[i] == file.uris@[i]@);
        assert(expected[i].uri == task@.urls[i]);
        assert(task@.urls[i] == task.urls@[i]@);
    }
}

/// A status has the word for its task's state: waiting, active, paused, complete or error.
pub proof fn a_status_has_the_word_for_the_state(
    task: DownloadTask,
    progress: Option<DownloadProgress>,
    status: StatusResponse,
)
    requires
        status@ == status_of(task@, task::progress_view(progress)),
    ensures
        task.state is Queued ==> status.status@ == "waiting"@,
        task.state is Probing || task.state is Active || task.state is Assembling
            ==> status.status@ == "active"@,
        task.state is Paused ==> status.status@ == "paused"@,
        task.state is Complete ==> status.status@ == "complete"@,
        task.state is Error ==> status.status@ == "error"@,
{
}

/// From one report of progress to the next, only what is downloaded, how fast and over
/// how many connections can change: not the size, the state, or where the file goes.
pub proof fn progress_does_not_change_the_size(
    t: TaskView,
    before: Option<ProgressView>,
    after: Option<ProgressView>,
)
    ensures
        status_of(t, before).total_length == status_of(t, after).total_length,
        status_of(t, before).gid == status_of(t, after).gid,
        status_of(t, before).status == status_of(t, after).status,
        status_of(t, before).error_message == status_of(t, after).error_message,
        status_of(t, before).files[0].length == status_of(t, after).files[0].length,
        status_of(t, before).files[0].path == status_of(t, after).files[0].path,
        status_of(t, before).files[0].uris == status_of(t, after).files[0].uris,
{
}

} // verus!
