//! The command line: what commands mean and what is printed.

use crate::engine::scheduler;
use crate::engine::scheduler::SchedulerView;
use crate::engine::task;
use crate::engine::task::{
    Checksum, ChecksumAlgo, ChecksumView, DownloadState, DownloadTask, OptionsView, TaskOptions,
};
use crate::engine::urls;
use crate::path;
use crate::text;
use vstd::prelude::*;

verus! {

/// The command line of the program.
#[derive(Debug)]
pub struct Cli {
    /// Path to config file (default: ~/.config/rude/config.toml)
    pub config: Option<String>,
    pub command: Commands,
}

/// The arguments of `add`.
#[derive(Debug)]
pub struct AddArgs {
    /// One or more URLs (first is primary, rest are mirrors)
    pub urls: Vec<String>,
    /// Output filename
    pub out: Option<String>,
    /// Output directory
    pub dir: Option<String>,
    /// Number of connections per server
    pub connections: usize,
    /// Number of chunks to split into
    pub split: Option<usize>,
    /// Sequential (streaming) download: chunks in order
    pub sequential: bool,
    /// Max download speed (bytes/sec, 0 = unlimited)
    pub max_speed: u64,
    /// Expected checksum (e.g. sha256=abc123...)
    pub checksum: Option<String>,
}

/// The commands of the program.
#[derive(Debug)]
pub enum Commands {
    /// Start the background download daemon + RPC server
    Daemon,
    /// Add a URL (or mirror list) to the queue
    Add(AddArgs),
    /// Show status of a download (by GID)
    Status { gid: String },
    /// List all downloads
    List,
    /// Pause a download
    Pause { gid: String },
    /// Resume a paused download
    Resume { gid: String },
    /// Cancel and optionally remove a download
    Cancel {
        gid: String,
        /// Also delete the partial file
        remove_file: bool,
    },
    /// Print current config
    Config,
}

// ─── Checksums ───────────────────────────────────────────────────────────────

/// The algorithm with this name, in lower case.
pub open spec fn algo_named(name: Seq<char>) -> Option<ChecksumAlgo> {
    if name == "sha256"@ {
        Some(ChecksumAlgo::Sha256)
    } else if name == "sha1"@ {
        Some(ChecksumAlgo::Sha1)
    } else if name == "md5"@ {
        Some(ChecksumAlgo::Md5)
    } else {
        None
    }
}

/// The algorithm with this name, in lower case.
pub fn algo_from_name(name: &str) -> (algo: Option<ChecksumAlgo>)
    ensures
        algo == algo_named(name@),
{
    if text::same(name, "sha256") {
        Some(ChecksumAlgo::Sha256)
    } else if text::same(name, "sha1") {
        Some(ChecksumAlgo::Sha1)
    } else if text::same(name, "md5") {
        Some(ChecksumAlgo::Md5)
    } else {
        None
    }
}

/// The checksum that `value` is under the algorithm called `name`.
pub open spec fn checksum_named(name: Seq<char>, value: Seq<char>) -> Result<
    ChecksumView,
    Seq<char>,
> {
    match algo_named(name) {
        Some(algorithm) => Ok(ChecksumView { algorithm, value }),
        None => Err("Unknown checksum algo: "@ + name),
    }
}

/// The checksum that `s` spells as `<algo>=<hex>`; the algorithm's case does not
/// matter.
pub open spec fn checksum_of(s: Seq<char>) -> Result<ChecksumView, Seq<char>> {
    match text::cut_at(s, '=') {
        Some((algo, value)) => checksum_named(text::unicode_lowercase(algo), value),
        None => Err("Checksum format: <algo>=<hex>"@),
    }
}

/// A parsed checksum, with its text in view.
pub open spec fn checksum_view(r: Result<Checksum, String>) -> Result<ChecksumView, Seq<char>> {
    match r {
        Ok(c) => Ok(c@),
        Err(e) => Err(e@),
    }
}

/// Read a checksum, `<algo>=<hex>`.
pub fn parse_checksum(s: &str) -> (r: Result<Checksum, String>)
    ensures
        checksum_view(r) == checksum_of(s@),
        text::cut_at(s@, '=') matches Some((algo, value)) ==> (vstd::utf8::is_ascii_chars(algo)
            ==> checksum_view(r) == checksum_named(text::ascii_lowered(algo), value)),
{
    match text::split_once(s, '=') {
        Some((algo, value)) => {
            let name: String = algo.to_lowercase();
            match algo_from_name(name.as_str()) {
                Some(algorithm) => Ok(Checksum { algorithm, value: value.to_string() }),
                None => {
                    let mut message: String = "Unknown checksum algo: ".to_string();
                    message.append(name.as_str());
                    Err(message)
                },
            }
        },
        None => Err("Checksum format: <algo>=<hex>".to_string()),
    }
}

/// An optional checksum: nothing where none is given.
pub open spec fn optional_checksum(s: Option<Seq<char>>) -> Result<
    Option<ChecksumView>,
    Seq<char>,
> {
    match s {
        None => Ok(None),
        Some(s) => match checksum_of(s) {
            Ok(c) => Ok(Some(c)),
            Err(e) => Err(e),
        },
    }
}

/// Read an optional checksum.
pub fn parse_optional_checksum(s: &Option<String>) -> (r: Result<Option<Checksum>, String>)
    ensures
        match r {
            Ok(c) => optional_checksum(text::opt(*s)) == Ok::<Option<ChecksumView>, Seq<char>>(
                match c {
                    Some(c) => Some(c@),
                    None => None,
                },
            ),
            Err(e) => optional_checksum(text::opt(*s)) == Err::<Option<ChecksumView>, Seq<char>>(
                e@,
            ),
        },
{
    match s {
        None => Ok(None),
        Some(s) => match parse_checksum(s.as_str()) {
            Ok(c) => Ok(Some(c)),
            Err(e) => Err(e),
        },
    }
}

// ─── Adding ──────────────────────────────────────────────────────────────────

/// The options that the arguments of `add` stand for, with the given checksum.
pub open spec fn options_for(args: AddArgs, checksum: Option<ChecksumView>) -> OptionsView {
    OptionsView {
        max_connections: Some(args.connections),
        split: args.split,
        sequential: args.sequential,
        out: text::opt(args.out),
        dir: path::opt_written(text::opt(args.dir)),
        checksum,
        max_speed: args.max_speed,
        ..task::no_options()
    }
}

/// The URLs and options of a download to add.
#[derive(Debug)]
pub struct AddJob {
    pub urls: Vec<String>,
    pub options: TaskOptions,
}

/// What the arguments of `add` ask for: the first bad URL is an error, then a bad
/// checksum.
pub fn add_job(args: AddArgs) -> (r: Result<AddJob, String>)
    ensures
        ({
            let parsed = urls::all_or_first(urls::each_parsed(text::each(args.urls@)));
            let checksum = optional_checksum(text::opt(args.checksum));
            match (parsed, checksum) {
                (Err(e), _) => r matches Err(message) && message@ == e,
                (Ok(_), Err(e)) => r matches Err(message) && message@ == e,
                (Ok(list), Ok(c)) => r matches Ok(job) && text::each(job.urls@) == list
                    && job.options@ == options_for(args, c),
            }
        }),
        r matches Ok(job) ==> {
            &&& args.dir is Some <==> job.options.dir is Some
            &&& args.dir matches Some(d) ==> job.options.dir->0.bytes@ == vstd::utf8::encode_utf8(
                d@,
            )
            &&& args.out is Some <==> job.options.out is Some
            &&& args.out matches Some(o) ==> job.options.out->0@ == o@
            &&& job.options.max_connections == Some(args.connections)
            &&& job.options.split == args.split
            &&& job.options.sequential == args.sequential
            &&& job.options.max_speed == args.max_speed
        },
{
    let parsed = match urls::parse_all(&args.urls) {
        Ok(list) => list,
        Err(e) => return Err(e),
    };
    add_job_with(parsed, args)
}

/// `add_job` with the URLs already parsed.
pub fn add_job_with(parsed: Vec<String>, args: AddArgs) -> (r: Result<AddJob, String>)
    ensures
        match optional_checksum(text::opt(args.checksum)) {
            Err(e) => r matches Err(message) && message@ == e,
            Ok(c) => r matches Ok(job) && job.urls == parsed && job.options@ == options_for(
                args,
                c,
            ),
        },
        r matches Ok(job) ==> {
            &&& args.dir is Some <==> job.options.dir is Some
            &&& args.dir matches Some(d) ==> job.options.dir->0.bytes@ == vstd::utf8::encode_utf8(
                d@,
            )
            &&& args.out is Some <==> job.options.out is Some
            &&& args.out matches Some(o) ==> job.options.out->0@ == o@
            &&& job.options.max_connections == Some(args.connections)
            &&& job.options.split == args.split
            &&& job.options.sequential == args.sequential
            &&& job.options.max_speed == args.max_speed
        },
{
    let ghost given = args;
    let checksum = match parse_optional_checksum(&args.checksum) {
        Ok(c) => c,
        Err(e) => return Err(e),
    };
    let options = TaskOptions {
        max_connections: Some(args.connections),
        split: args.split,
        sequential: args.sequential,
        out: args.out,
        dir: path::from_opt_text(&args.dir),
        checksum,
        max_speed: args.max_speed,
        headers: Vec::new(),
        referer: None,
        user_agent: None,
    };
    assert(options@.headers =~= task::no_options().headers);
    proof {
        arguments_are_passed_on(given, optional_checksum(text::opt(given.checksum))->Ok_0, options);
    }
    Ok(AddJob { urls: parsed, options })
}

// ─── Output ──────────────────────────────────────────────────────────────────

/// The line that names a request to the daemon.
pub open spec fn api_line(method: Seq<char>, port: u16, path: Seq<char>, gid: Seq<char>) -> Seq<
    char,
> {
    "API: "@ + method + " http://127.0.0.1:"@ + text::decimal(port as nat) + path + gid
}

/// What a command that needs the daemon prints: the request to send.
pub open spec fn hints(command: Commands, port: u16) -> Seq<Seq<char>> {
    match command {
        Commands::List => seq![
            "Use 'rude daemon' to start the background server."@,
            "API: GET http://127.0.0.1:16800/api/tellActive"@,
        ],
        Commands::Status { gid } => seq![api_line("GET"@, port, "/api/tellStatus/"@, gid@)],
        Commands::Pause { gid } => seq![api_line("PUT"@, port, "/api/pause/"@, gid@)],
        Commands::Resume { gid } => seq![api_line("PUT"@, port, "/api/resume/"@, gid@)],
        Commands::Cancel { gid, remove_file } => seq![
            api_line("DELETE"@, port, "/api/remove/"@, gid@) + " (remove_file="@ + (
            if remove_file {
                "true"@
            } else {
                "false"@
            }) + ")"@,
        ],
        _ => Seq::empty(),
    }
}

fn api_text(method: &str, port: u16, path: &str, gid: &str) -> (line: String)
    ensures
        line@ == api_line(method@, port, path@, gid@),
{
    let mut line: String = "API: ".to_string();
    let number: String = text::decimal_string(port as u64);
    line.append(method);
    line.append(" http://127.0.0.1:");
    line.append(number.as_str());
    line.append(path);
    line.append(gid);
    line
}

/// The lines that a command prints which needs the daemon; none for the others.
pub fn hint_lines(command: &Commands, port: u16) -> (lines: Vec<String>)
    ensures
        text::each(lines@) == hints(*command, port),
{
    let lines: Vec<String> = match command {
        Commands::List => vec![
            "Use 'rude daemon' to start the background server.".to_string(),
            "API: GET http://127.0.0.1:16800/api/tellActive".to_string(),
        ],
        Commands::Status { gid } => vec![api_text("GET", port, "/api/tellStatus/", gid.as_str())],
        Commands::Pause { gid } => vec![api_text("PUT", port, "/api/pause/", gid.as_str())],
        Commands::Resume { gid } => vec![api_text("PUT", port, "/api/resume/", gid.as_str())],
        Commands::Cancel { gid, remove_file } => {
            let mut line: String = api_text("DELETE", port, "/api/remove/", gid.as_str());
            line.append(" (remove_file=");
            line.append(
                if *remove_file {
                    "true"
                } else {
                    "false"
                },
            );
            line.append(")");
            vec![line]
        },
        _ => Vec::new(),
    };
    assert(text::each(lines@) =~= hints(*command, port));
    lines
}

// ─── The daemon ──────────────────────────────────────────────────────────────

/// How a request is made.
#[derive(Debug, Clone, Copy, PartialEq, Eq, Structural)]
pub enum Method {
    Get,
    Put,
    Delete,
}

/// A request to the daemon, with its text in view.
pub struct RequestView {
    pub method: Method,
    pub url: Seq<char>,
}

/// A request to the daemon.
#[derive(Debug)]
pub struct ApiRequest {
    pub method: Method,
    pub url: String,
}

impl View for ApiRequest {
    type V = RequestView;

    open spec fn view(&self) -> RequestView {
        RequestView { method: self.method, url: self.url@ }
    }
}

/// Each request, with its text in view.
pub open spec fn each_request(requests: Seq<ApiRequest>) -> Seq<RequestView> {
    requests.map_values(|r: ApiRequest| r@)
}

/// A request to the daemon that listens on `address`.
pub open spec fn request_to(
    method: Method,
    address: Seq<char>,
    path: Seq<char>,
    gid: Seq<char>,
) -> RequestView {
    RequestView { method, url: "http://"@ + address + path + gid }
}

/// The requests that carry out a command: for a list the three groups that make up
/// all downloads; none for a command that needs no daemon.
pub open spec fn requests_of(command: Commands, address: Seq<char>) -> Seq<RequestView> {
    let none = Seq::<char>::empty();
    match command {
        Commands::List => seq![
            request_to(Method::Get, address, "/api/tellActive"@, none),
            request_to(Method::Get, address, "/api/tellWaiting"@, none),
            request_to(Method::Get, address, "/api/tellStopped"@, none),
        ],
        Commands::Status { gid } => seq![
            request_to(Method::Get, address, "/api/tellStatus/"@, gid@),
        ],
        Commands::Pause { gid } => seq![request_to(Method::Put, address, "/api/pause/"@, gid@)],
        Commands::Resume { gid } => seq![request_to(Method::Put, address, "/api/resume/"@, gid@)],
        Commands::Cancel { gid, remove_file } => seq![
            request_to(
                Method::Delete,
                address,
                "/api/remove/"@,
                if remove_file {
                    gid@ + "?remove_file=true"@
                } else {
                    gid@
                },
            ),
        ],
        _ => Seq::empty(),
    }
}

fn api_request(method: Method, address: &str, path: &str, gid: &str) -> (request: ApiRequest)
    ensures
        request@ == request_to(method, address@, path@, gid@),
{
    let mut url: String = "http://".to_string();
    url.append(address);
    url.append(path);
    url.append(gid);
    ApiRequest { method, url }
}

/// The requests that carry out a command, to the daemon that listens on `address`.
pub fn daemon_requests(command: &Commands, address: &str) -> (requests: Vec<ApiRequest>)
    ensures
        each_request(requests@) == requests_of(*command, address@),
{
    proof {
        reveal_strlit("");
    }
    let requests: Vec<ApiRequest> = match command {
        Commands::List => vec![
            api_request(Method::Get, address, "/api/tellActive", ""),
            api_request(Method::Get, address, "/api/tellWaiting", ""),
            api_request(Method::Get, address, "/api/tellStopped", ""),
        ],
        Commands::Status { gid } => vec![
            api_request(Method::Get, address, "/api/tellStatus/", gid.as_str()),
        ],
        Commands::Pause { gid } => vec![
            api_request(Method::Put, address, "/api/pause/", gid.as_str()),
        ],
        Commands::Resume { gid } => vec![
            api_request(Method::Put, address, "/api/resume/", gid.as_str()),
        ],
        Commands::Cancel { gid, remove_file } => {
            let mut target: String = gid.clone();
            if *remove_file {
                target.append("?remove_file=true");
            }
            vec![api_request(Method::Delete, address, "/api/remove/", target.as_str())]
        },
        _ => Vec::new(),
    };
    assert(""@ =~= Seq::<char>::empty());
    assert(each_request(requests@) =~= requests_of(*command, address@));
    requests
}

/// What the program does while it waits for a download.
#[derive(Debug)]
pub enum WaitStep {
    /// The download is complete; the path of its file, or nothing
    Done(String),
    /// The download failed
    Failed(String),
    /// The download goes on: show its progress
    Show,
    /// The task is not known (yet): nothing to show
    Idle,
}

/// Decide what to do next while waiting for a download.
pub fn wait_step(task: &Option<DownloadTask>) -> (step: WaitStep)
    ensures
        match *task {
            None => step is Idle,
            Some(t) => match t.state {
                DownloadState::Complete => step matches WaitStep::Done(file) && file@ == (
                match t@.output_path {
                    Some(p) => path::shown(p),
                    None => Seq::empty(),
                }),
                DownloadState::Error(e) => step matches WaitStep::Failed(message) && message@ == e@,
                _ => step is Show,
            },
        },
{
    match task {
        None => WaitStep::Idle,
        Some(task) => match &task.state {
            DownloadState::Complete => {
                let file: String = match &task.output_path {
                    Some(p) => p.display(),
                    None => String::new(),
                };
                WaitStep::Done(file)
            },
            DownloadState::Error(e) => WaitStep::Failed(e.clone()),
            _ => WaitStep::Show,
        },
    }
}

/// The unit in which a speed is shown.
#[derive(Debug, Clone, Copy, PartialEq, Eq, Structural)]
pub enum SpeedUnit {
    /// Millions of bytes per second
    Megabytes,
    /// Thousands of bytes per second
    Kilobytes,
    Bytes,
}

/// The unit in which a speed is shown: the largest of which there is at least
/// one.
pub fn speed_unit(bps: u64) -> (unit: SpeedUnit)
    ensures
        unit == (if bps >= 1000000 {
            SpeedUnit::Megabytes
        } else if bps >= 1000 {
            SpeedUnit::Kilobytes
        } else {
            SpeedUnit::Bytes
        }),
{
    if bps >= 1000000 {
        SpeedUnit::Megabytes
    } else if bps >= 1000 {
        SpeedUnit::Kilobytes
    } else {
        SpeedUnit::Bytes
    }
}

/// A remaining time: hours and minutes, minutes and seconds, or seconds.
pub open spec fn eta_text(secs: u64) -> Seq<char> {
    if secs >= 3600 {
        text::decimal((secs / 3600) as nat) + "h"@ + text::decimal((secs % 3600 / 60) as nat) + "m"@
    } else if secs >= 60 {
        text::decimal((secs / 60) as nat) + "m"@ + text::decimal((secs % 60) as nat) + "s"@
    } else {
        text::decimal(secs as nat) + "s"@
    }
}

/// Show a remaining time.
pub fn format_eta(secs: u64) -> (s: String)
    ensures
        s@ == eta_text(secs),
{
    if secs >= 3600 {
        let mut s: String = text::decimal_string(secs / 3600);
        let minutes: String = text::decimal_string((secs % 3600) / 60);
        s.append("h");
        s.append(minutes.as_str());
        s.append("m");
        s
    } else if secs >= 60 {
        let mut s: String = text::decimal_string(secs / 60);
        let rest: String = text::decimal_string(secs % 60);
        s.append("m");
        s.append(rest.as_str());
        s.append("s");
        s
    } else {
        let mut s: String = text::decimal_string(secs);
        s.append("s");
        s
    }
}

// ─── Laws ────────────────────────────────────────────────────────────────────

/// A checksum is written as an algorithm, an equals sign and a value: the value is taken
/// as it stands, the algorithm by its name in whatever case; an algorithm that is not
/// known, and text without the sign, are errors.
pub proof fn a_checksum_is_written_as_algorithm_and_value(algo: Seq<char>, value: Seq<char>)
    requires
        !algo.contains('='),
    ensures
        ({
            let name = text::unicode_lowercase(algo);
            let r = checksum_of(algo.push('=') + value);
            &&& r is Ok <==> name == "sha256"@ || name == "sha1"@ || name == "md5"@
            &&& r matches Ok(c) ==> c.value == value
            &&& name == "sha256"@ ==> r->Ok_0.algorithm == ChecksumAlgo::Sha256
            &&& name == "sha1"@ ==> r->Ok_0.algorithm == ChecksumAlgo::Sha1
            &&& name == "md5"@ ==> r->Ok_0.algorithm == ChecksumAlgo::Md5
            &&& r matches Err(e) ==> e == "Unknown checksum algo: "@ + name
        }),
        checksum_of(algo) is Err,
        optional_checksum(None) == Ok::<Option<ChecksumView>, Seq<char>>(None),
        forall|s: Seq<char>|
            match checksum_of(s) {
                Ok(c) => #[trigger] optional_checksum(Some(s)) == Ok::<
                    Option<ChecksumView>,
                    Seq<char>,
                >(Some(c)),
                Err(e) => optional_checksum(Some(s)) == Err::<Option<ChecksumView>, Seq<char>>(e),
            },
{
    text::cutting_undoes_joining(algo, '=', value);
    text::text_is_cut_at_the_first_separator(algo, '=');
    reveal_strlit("sha256");
    reveal_strlit("sha1");
    reveal_strlit("md5");
    assert("sha256"@.len() == 6 && "sha1"@.len() == 4 && "md5"@.len() == 3);
}

/// What is asked for on the command line is passed on: the directory and the name, the
/// connections and the split, the order, the cap and the checksum. The rest is left open.
pub proof fn arguments_are_passed_on(
    args: AddArgs,
    checksum: Option<ChecksumView>,
    options: TaskOptions,
)
    requires
        options@ == options_for(args, checksum),
    ensures
        args.dir is Some <==> options.dir is Some,
        args.dir matches Some(d) ==> options.dir->0.bytes@ == vstd::utf8::encode_utf8(d@),
        args.out is Some <==> options.out is Some,
        args.out matches Some(o) ==> options.out->0@ == o@,
        options.max_connections == Some(args.connections),
        options.split == args.split,
        options.sequential == args.sequential,
        options.max_speed == args.max_speed,
        checksum is Some <==> options.checksum is Some,
        checksum matches Some(c) ==> options.checksum->0.algorithm == c.algorithm
            && options.checksum->0.value@ == c.value,
        options.headers@.len() == 0,
        options.referer is None,
        options.user_agent is None,
{
    text::strings_are_seen_by_their_characters(None, Seq::empty(), options.headers@);
}

/// A directory that is asked for is where the file goes: the path of a download's file
/// begins with it, unless the name that is asked for is absolute.
pub proof fn an_asked_directory_is_where_the_file_goes(
    args: AddArgs,
    checksum: Option<ChecksumView>,
    s: SchedulerView,
)
    requires
        s.task.options == options_for(args, checksum),
        args.dir is Some,
    ensures
        ({
            let dir = vstd::utf8::encode_utf8(args.dir->0@);
            let name = vstd::utf8::encode_utf8(scheduler::name_for(s));
            !(name.len() > 0 && name[0] == 0x2f) ==> scheduler::path_for(s).len() >= dir.len()
                + name.len() && scheduler::path_for(s).take(dir.len() as int) == dir
        }),
        args.out matches Some(o) ==> scheduler::name_for(s) == o@,
{
    scheduler::the_file_goes_where_it_was_asked_for(s);
}

/// A command asks the daemon about the download that it names: status by GET, pause and
/// resume by PUT, cancel by DELETE, each at its own path on the daemon's address; a list
/// asks for all three groups. The other commands ask nothing.
pub proof fn commands_ask_about_their_download(
    command: Commands,
    address: Seq<char>,
    requests: Seq<ApiRequest>,
)
    requires
        each_request(requests) == requests_of(command, address),
    ensures
        match command {
            Commands::Status { gid } => requests.len() == 1 && requests[0].method == Method::Get
                && requests[0].url@ == "http://"@ + address + "/api/tellStatus/"@ + gid@,
            Commands::Pause { gid } => requests.len() == 1 && requests[0].method == Method::Put
                && requests[0].url@ == "http://"@ + address + "/api/pause/"@ + gid@,
            Commands::Resume { gid } => requests.len() == 1 && requests[0].method == Method::Put
                && requests[0].url@ == "http://"@ + address + "/api/resume/"@ + gid@,
            Commands::Cancel { gid, remove_file } => {
                let plain = "http://"@ + address + "/api/remove/"@ + gid@;
                &&& requests.len() == 1
                &&& requests[0].method == Method::Delete
                &&& !remove_file ==> requests[0].url@ == plain
                &&& remove_file ==> requests[0].url@ == plain + "?remove_file=true"@
            },
            Commands::List => {
                &&& requests.len() == 3
                &&& forall|i: int|
                    0 <= i < 3 ==> (#[trigger] requests[i]).method == Method::Get
                &&& requests[0].url@ == "http://"@ + address + "/api/tellActive"@
                &&& requests[1].url@ == "http://"@ + address + "/api/tellWaiting"@
                &&& requests[2].url@ == "http://"@ + address + "/api/tellStopped"@
            },
            _ => requests.len() == 0,
        },
{
    let seen = each_request(requests);
    assert(seen.len() == requests.len());
    if requests.len() > 0 {
        assert(seen[0] == requests[0]@);
    }
    if requests.len() == 3 {
        assert(seen[1] == requests[1]@);
        assert(seen[2] == requests[2]@);
    }
    let none = Seq::<char>::empty();
    assert("http://"@ + address + "/api/tellActive"@ + none =~= "http://"@ + address
        + "/api/tellActive"@);
    assert("http://"@ + address + "/api/tellWaiting"@ + none =~= "http://"@ + address
        + "/api/tellWaiting"@);
    assert("http://"@ + address + "/api/tellStopped"@ + none =~= "http://"@ + address
        + "/api/tellStopped"@);
    if let Commands::Cancel { gid, remove_file } = command {
        let plain = "http://"@ + address + "/api/remove/"@ + gid@;
        assert("http://"@ + address + "/api/remove/"@ + (gid@ + "?remove_file=true"@) =~= plain
            + "?remove_file=true"@);
    }
}

/// What a command prints names its request: the method, the daemon's port, the path and
/// the download; whether a file is removed is said, too.
pub proof fn hints_name_the_request(command: Commands, port: u16)
    ensures
        ({
            let at = " http://127.0.0.1:"@ + text::decimal(port as nat);
            match command {
                Commands::Status { gid } => hints(command, port).len() == 1 && hints(
                    command,
                    port,
                )[0] == "API: "@ + "GET"@ + at + "/api/tellStatus/"@ + gid@,
                Commands::Pause { gid } => hints(command, port).len() == 1 && hints(
                    command,
                    port,
                )[0] == "API: "@ + "PUT"@ + at + "/api/pause/"@ + gid@,
                Commands::Resume { gid } => hints(command, port).len() == 1 && hints(
                    command,
                    port,
                )[0] == "API: "@ + "PUT"@ + at + "/api/resume/"@ + gid@,
                Commands::Cancel { gid, remove_file } => {
                    let head = "API: "@ + "DELETE"@ + at + "/api/remove/"@ + gid@;
                    &&& hints(command, port).len() == 1
                    &&& remove_file ==> hints(command, port)[0] == head + " (remove_file="@
                        + "true"@ + ")"@
                    &&& !remove_file ==> hints(command, port)[0] == head + " (remove_file="@
                        + "false"@ + ")"@
                },
                Commands::List => hints(command, port).len() == 2,
                _ => hints(command, port).len() == 0,
            }
        }),
{
    let at = " http://127.0.0.1:"@ + text::decimal(port as nat);
    let number = text::decimal(port as nat);
    match command {
        Commands::Status { gid } => {
            assert("API: "@ + "GET"@ + " http://127.0.0.1:"@ + number + "/api/tellStatus/"@ + gid@
                =~= "API: "@ + "GET"@ + at + "/api/tellStatus/"@ + gid@);
        },
        Commands::Pause { gid } => {
            assert("API: "@ + "PUT"@ + " http://127.0.0.1:"@ + number + "/api/pause/"@ + gid@
                =~= "API: "@ + "PUT"@ + at + "/api/pause/"@ + gid@);
        },
        Commands::Resume { gid } => {
            assert("API: "@ + "PUT"@ + " http://127.0.0.1:"@ + number + "/api/resume/"@ + gid@
                =~= "API: "@ + "PUT"@ + at + "/api/resume/"@ + gid@);
        },
        Commands::Cancel { gid, .. } => {
            assert("API: "@ + "DELETE"@ + " http://127.0.0.1:"@ + number + "/api/remove/"@ + gid@
                =~= "API: "@ + "DELETE"@ + at + "/api/remove/"@ + gid@);
        },
        _ => {},
    }
}

/// A remaining time is shown in hours and minutes from an hour on, in minutes and seconds
/// from a minute on, and otherwise in seconds.
pub proof fn a_remaining_time_is_shown_in_its_units(secs: u64, high: u64, low: u64)
    requires
        low < 60,
    ensures
        0 < high && high * 3600 + low * 60 <= secs < high * 3600 + low * 60 + 60 ==> eta_text(secs)
            == text::decimal(high as nat) + "h"@ + text::decimal(low as nat) + "m"@,
        0 < high < 60 && secs == high * 60 + low ==> eta_text(secs) == text::decimal(high as nat)
            + "m"@ + text::decimal(low as nat) + "s"@,
        secs == low ==> eta_text(secs) == text::decimal(low as nat) + "s"@,
{
}

/// A checksum that was read is what it was read as: its algorithm and its value, or the
/// error.
pub proof fn a_checksum_is_what_was_read(s: Seq<char>, r: Result<Checksum, String>)
    requires
        checksum_view(r) == checksum_of(s),
    ensures
        r is Ok <==> checksum_of(s) is Ok,
        r matches Ok(c) ==> c.algorithm == checksum_of(s)->Ok_0.algorithm && c.value@
            == checksum_of(s)->Ok_0.value,
        r matches Err(e) ==> e@ == checksum_of(s)->Err_0,
{
}

} // verus!
