//! What requests do to the registry, and what is answered.

use crate::cli;
use crate::engine::manager;
use crate::engine::manager::{DownloadManager, EntryView};
use crate::engine::task;
use crate::engine::task::{
    ChecksumView, DownloadProgress, DownloadTask, OptionsView, StateView, TaskId, TaskOptions,
    Timestamp,
};
use crate::engine::urls;
use crate::proto::types;
use crate::proto::types::{
    AddOptions, AddUriRequest, AddUriResponse, GlobalStatResponse, OkResponse, StatusResponse,
    StatusView,
};
use crate::path;
use crate::path::FilePath;
use crate::text;
use vstd::prelude::*;

verus! {

// ─── Errors ──────────────────────────────────────────────────────────────────

/// The answer to a request that failed: an HTTP status and what went wrong.
#[derive(Debug)]
pub struct ApiError {
    pub status: u16,
    pub message: String,
}

impl ApiError {
    pub fn bad_request(msg: &str) -> (e: Self)
        ensures
            e.status == 400,
            e.message@ == msg@,
    {
        ApiError { status: 400, message: msg.to_string() }
    }

    pub fn not_found(msg: &str) -> (e: Self)
        ensures
            e.status == 404,
            e.message@ == msg@,
    {
        ApiError { status: 404, message: msg.to_string() }
    }

    /// The request does not show the shared secret.
    pub fn unauthorized(msg: &str) -> (e: Self)
        ensures
            e.status == 401,
            e.message@ == msg@,
    {
        ApiError { status: 401, message: msg.to_string() }
    }

    /// Anything else that went wrong.
    pub fn internal(msg: &str) -> (e: Self)
        ensures
            e.status == 500,
            e.message@ == msg@,
    {
        ApiError { status: 500, message: msg.to_string() }
    }
}

/// The error has this status and message.
pub open spec fn is_error(e: ApiError, status: u16, message: Seq<char>) -> bool {
    e.status == status && e.message@ == message
}

// ─── Authentication ──────────────────────────────────────────────────────────

/// A request with this token is let in: there is no secret, or the token is the
/// secret.
pub open spec fn permitted(secret: Option<Seq<char>>, token: Option<Seq<char>>) -> bool {
    secret is None || token == secret
}

/// Whether a request with this token is let in.
pub fn authorized(secret: &Option<String>, token: &Option<String>) -> (r: bool)
    ensures
        r <==> secret is None || (token is Some && token->0@ == secret->0@),
        r == permitted(text::opt(*secret), text::opt(*token)),
{
    secret.is_none() || text::same_opt(token, secret)
}

/// The token of an `Authorization` header, `Bearer <token>`; the case of the
/// scheme does not matter.
pub open spec fn token_in(header: Option<Seq<char>>) -> Option<Seq<char>> {
    match header {
        Some(value) => match text::cut_at(value, ' ') {
            Some((scheme, token)) => if text::ascii_lowered(scheme) == "bearer"@ {
                Some(token)
            } else {
                None
            },
            None => None,
        },
        None => None,
    }
}

/// The token of an `Authorization` header.
pub fn bearer_token(header: &Option<String>) -> (token: Option<String>)
    ensures
        text::opt(token) == token_in(text::opt(*header)),
{
    match header {
        Some(value) => match text::split_once(value.as_str(), ' ') {
            Some((scheme, token)) => {
                proof {
                    reveal_strlit("bearer");
                    assert(text::ascii_lowered("bearer"@) =~= "bearer"@);
                }
                if text::eq_ignore_ascii_case(scheme, "bearer") {
                    Some(token.to_string())
                } else {
                    None
                }
            },
            None => None,
        },
        None => None,
    }
}

/// Let a request in or refuse it, by its `Authorization` header.
pub fn check_request(secret: &Option<String>, header: &Option<String>) -> (r: Result<(), ApiError>)
    ensures
        r is Ok <==> permitted(text::opt(*secret), token_in(text::opt(*header))),
        r matches Err(e) ==> is_error(e, 401, "Unauthorized"@),
{
    let token = bearer_token(header);
    if authorized(secret, &token) {
        Ok(())
    } else {
        Err(ApiError::unauthorized("Unauthorized"))
    }
}

/// The header with which a client shows the secret.
pub open spec fn header_for(secret: Seq<char>) -> Seq<char> {
    "Bearer "@ + secret
}

/// The header with which a client shows the secret; none where there is none.
pub fn authorization(secret: &Option<String>) -> (header: Option<String>)
    ensures
        text::opt(header) == (match text::opt(*secret) {
            Some(s) => Some(header_for(s)),
            None => None,
        }),
{
    match secret {
        Some(s) => {
            let mut header: String = "Bearer ".to_string();
            header.append(s.as_str());
            Some(header)
        },
        None => None,
    }
}

/// Whoever knows the secret is let in, and with a secret nobody is let in without
/// a header.
pub proof fn the_secret_opens(secret: Seq<char>)
    ensures
        permitted(Some(secret), token_in(Some(header_for(secret)))),
        !permitted(Some(secret), token_in(None)),
{
    reveal_strlit("Bearer ");
    reveal_strlit("bearer");
    let value = header_for(secret);
    text::first_of_is_first(value, ' ');
    assert(value[6] == ' ');
    assert(value.contains(' '));
    let i = text::first_of(value, ' ')->0;
    assert(i == 6) by {
        if i < 6 {
            assert(value[i] == "Bearer "@[i]);
        }
    }
    assert(value.take(6) =~= "Bearer "@.take(6));
    assert(text::ascii_lowered(value.take(6)) =~= "bearer"@);
    assert(value.skip(7) =~= secret);
}

// ─── Adding ──────────────────────────────────────────────────────────────────

/// A header line as a name and a value: cut at the first colon, both without
/// surrounding white space; `None` where there is no colon.
pub open spec fn header_of(line: Seq<char>) -> Option<(Seq<char>, Seq<char>)> {
    match text::cut_at(line, ':') {
        Some((name, value)) => Some((text::trimmed(name), text::trimmed(value))),
        None => None,
    }
}

/// The headers that the lines spell; lines without a colon are left out.
pub open spec fn headers_of(lines: Seq<Seq<char>>) -> Seq<(Seq<char>, Seq<char>)>
    decreases lines.len(),
{
    if lines.len() == 0 {
        Seq::empty()
    } else {
        let before = headers_of(lines.drop_last());
        match header_of(lines.last()) {
            Some(header) => before.push(header),
            None => before,
        }
    }
}

/// Read header lines.
pub fn parse_headers(lines: &Vec<String>) -> (headers: Vec<(String, String)>)
    ensures
        text::each_pair(headers@) == headers_of(text::each(lines@)),
{
    let ghost all = text::each(lines@);
    let mut headers: Vec<(String, String)> = Vec::new();
    let mut i: usize = 0;
    assert(text::each_pair(headers@) =~= headers_of(all.take(0)));
    while i < lines.len()
        invariant
            i <= lines@.len(),
            all == text::each(lines@),
            text::each_pair(headers@) == headers_of(all.take(i as int)),
        decreases lines@.len() - i,
    {
        assert(all.take(i + 1).drop_last() =~= all.take(i as int));
        assert(all[i as int] == lines@[i as int]@);
        let ghost so_far = headers@;
        if let Some((name, value)) = text::split_once(lines[i].as_str(), ':') {
            headers.push((text::trim(name).to_string(), text::trim(value).to_string()));
            assert(text::each_pair(headers@) =~= text::each_pair(so_far).push(
                (text::trimmed(name@), text::trimmed(value@)),
            ));
        }
        i += 1;
    }
    assert(all.take(i as int) =~= all);
    headers
}

/// The task options that a request's options stand for, with the given checksum.
pub open spec fn options_of(o: AddOptions, checksum: Option<ChecksumView>) -> OptionsView {
    OptionsView {
        max_connections: o.max_connection_per_server,
        split: o.split,
        sequential: o.sequential_download matches Some(s) && s,
        out: text::opt(o.out),
        dir: path::opt_written(text::opt(o.dir)),
        checksum,
        max_speed: match o.max_download_limit {
            Some(limit) => limit,
            None => 0,
        },
        headers: match o.header {
            Some(lines) => headers_of(text::each(lines@)),
            None => Seq::empty(),
        },
        referer: text::opt(o.referer),
        user_agent: None,
    }
}

/// The task options that a request's options stand for; a checksum that cannot be
/// read is a bad request.
pub fn options_from_add(o: &AddOptions) -> (r: Result<TaskOptions, ApiError>)
    ensures
        match cli::optional_checksum(text::opt(o.checksum)) {
            Ok(checksum) => r matches Ok(options) && options@ == options_of(*o, checksum),
            Err(e) => r matches Err(error) && is_error(error, 400, e),
        },
        r matches Ok(options) ==> {
            &&& o.dir is Some <==> options.dir is Some
            &&& o.dir matches Some(d) ==> options.dir->0.bytes@ == vstd::utf8::encode_utf8(d@)
            &&& o.out is Some <==> options.out is Some
            &&& o.out matches Some(name) ==> options.out->0@ == name@
            &&& options.max_connections == o.max_connection_per_server
            &&& options.split == o.split
            &&& options.sequential <==> o.sequential_download == Some(true)
        },
{
    let checksum = match cli::parse_optional_checksum(&o.checksum) {
        Ok(checksum) => checksum,
        Err(e) => return Err(ApiError::bad_request(e.as_str())),
    };
    let headers: Vec<(String, String)> = match &o.header {
        Some(lines) => parse_headers(lines),
        None => Vec::new(),
    };
    let options = TaskOptions {
        max_connections: o.max_connection_per_server,
        split: o.split,
        sequential: match o.sequential_download {
            Some(s) => s,
            None => false,
        },
        out: o.out.clone(),
        dir: path::from_opt_text(&o.dir),
        checksum,
        max_speed: match o.max_download_limit {
            Some(limit) => limit,
            None => 0,
        },
        headers,
        referer: o.referer.clone(),
        user_agent: None,
    };
    assert(o.header is None ==> options@.headers =~= Seq::empty());
    proof {
        requested_options_are_passed_on(*o, checksum_asked(*o)->Ok_0, options);
    }
    Ok(options)
}

/// The checksum of a request, read.
pub open spec fn checksum_asked(o: AddOptions) -> Result<Option<ChecksumView>, Seq<char>> {
    cli::optional_checksum(text::opt(o.checksum))
}

/// What a request to add a download is answered, and what it does, once its URLs
/// were read: a URL or a checksum that cannot be read is a bad request, an empty
/// list of URLs an internal error, and anything else is registered.
pub open spec fn added(
    parsed: Result<Seq<Seq<char>>, Seq<char>>,
    o: AddOptions,
    before: Map<Seq<char>, EntryView>,
    after: Map<Seq<char>, EntryView>,
    r: Result<AddUriResponse, ApiError>,
) -> bool {
    match parsed {
        Err(e) => after == before && (r matches Err(error) && is_error(error, 400, e)),
        Ok(list) => match checksum_asked(o) {
            Err(e) => after == before && (r matches Err(error) && is_error(error, 400, e)),
            Ok(checksum) => if list.len() == 0 {
                after == before && (r matches Err(error) && is_error(
                    error,
                    500,
                    "At least one URL required"@,
                ))
            } else {
                &&& r is Ok
                &&& task::is_gid(r->Ok_0.gid@)
                &&& exists|now: Timestamp|
                    after == manager::with_task(
                        before,
                        r->Ok_0.gid@,
                        #[trigger] task::queued_task(
                            r->Ok_0.gid@,
                            list,
                            options_of(o, checksum),
                            now,
                        ),
                    )
            },
        },
    }
}

/// POST /api/addUri
pub fn add_uri(manager: &mut DownloadManager, req: &AddUriRequest) -> (r: Result<
    AddUriResponse,
    ApiError,
>)
    requires
        old(manager).wf(),
    ensures
        final(manager).wf(),
        final(manager).settings() == old(manager).settings(),
        added(
            urls::all_or_first(urls::each_parsed(text::each(req.uris@))),
            req.options,
            old(manager)@,
            final(manager)@,
            r,
        ),
{
    match urls::parse_all(&req.uris) {
        Ok(list) => add_parsed(manager, list, &req.options),
        Err(e) => Err(ApiError::bad_request(e.as_str())),
    }
}

/// `add_uri` with the URLs already parsed.
pub fn add_parsed(manager: &mut DownloadManager, list: Vec<String>, o: &AddOptions) -> (r: Result<
    AddUriResponse,
    ApiError,
>)
    requires
        old(manager).wf(),
    ensures
        final(manager).wf(),
        final(manager).settings() == old(manager).settings(),
        added(Ok(text::each(list@)), *o, old(manager)@, final(manager)@, r),
{
    let options = match options_from_add(o) {
        Ok(options) => options,
        Err(e) => return Err(e),
    };
    match manager.add(list, options) {
        Ok(id) => Ok(AddUriResponse { gid: id.0 }),
        Err(e) => Err(ApiError::internal(e.as_str())),
    }
}

// ─── Status ──────────────────────────────────────────────────────────────────

/// GET /api/tellStatus/:gid
pub fn tell_status(manager: &DownloadManager, gid: String) -> (r: Result<StatusResponse, ApiError>)
    ensures
        match r {
            Ok(status) => manager@.contains_key(gid@) && status@ == types::status_of(
                manager@[gid@].task,
                manager::latest_of(manager@, gid@),
            ),
            Err(e) => !manager@.contains_key(gid@) && is_error(e, 404, "Task not found"@),
        },
{
    let id = TaskId(gid);
    match manager.get(&id) {
        Some(task) => {
            let progress = manager.latest_progress(&id);
            Ok(types::task_to_status(&task, &progress))
        },
        None => Err(ApiError::not_found("Task not found")),
    }
}

/// A group of tasks, by state.
#[derive(Debug, Clone, Copy, PartialEq, Eq, Structural)]
pub enum Group {
    Active,
    /// Queued or paused
    Waiting,
    /// Complete or failed
    Stopped,
    /// Queued, and not paused
    Queued,
}

/// The state belongs to the group.
pub open spec fn belongs(group: Group, state: StateView) -> bool {
    match group {
        Group::Active => state.active(),
        Group::Waiting => state.waiting(),
        Group::Stopped => state.terminal(),
        Group::Queued => state is Queued,
    }
}

fn is_in(group: Group, task: &DownloadTask) -> (r: bool)
    ensures
        r == belongs(group, task@.state),
{
    match group {
        Group::Active => task.state.is_active(),
        Group::Waiting => task.state.is_waiting(),
        Group::Stopped => task.state.is_terminal(),
        Group::Queued => matches!(task.state, task::DownloadState::Queued),
    }
}

/// Each status, with all text in view.
pub open spec fn each_status(statuses: Seq<StatusResponse>) -> Seq<StatusView> {
    statuses.map_values(|s: StatusResponse| s@)
}

/// The keys of the tasks that belong to the group, in their order.
pub open spec fn group_keys(
    m: Map<Seq<char>, EntryView>,
    keys: Seq<Seq<char>>,
    group: Group,
) -> Seq<Seq<char>> {
    keys.filter(|k: Seq<char>| belongs(group, m[k].task.state))
}

/// The status of each of these tasks, with its progress where that is shown.
pub open spec fn statuses_of(
    m: Map<Seq<char>, EntryView>,
    keys: Seq<Seq<char>>,
    with_progress: bool,
) -> Seq<StatusView> {
    keys.map_values(
        |k: Seq<char>|
            types::status_of(
                m[k].task,
                if with_progress {
                    manager::latest_of(m, k)
                } else {
                    None
                },
            ),
    )
}

/// The statuses of the group's tasks, in some order.
fn tell_group(manager: &DownloadManager, group: Group, with_progress: bool) -> (statuses: Vec<
    StatusResponse,
>)
    requires
        manager.wf(),
    ensures
        exists|keys: Seq<Seq<char>>|
            manager::lists(keys, manager@) && each_status(statuses@) == statuses_of(
                manager@,
                #[trigger] group_keys(manager@, keys, group),
                with_progress,
            ),
{
    let tasks = manager.list();
    let ghost m = manager@;
    let ghost keys = choose|keys: Seq<Seq<char>>|
        manager::lists(keys, m) && task::each_task(tasks@) == #[trigger] manager::tasks_at(m, keys);
    let mut statuses: Vec<StatusResponse> = Vec::new();
    let mut i: usize = 0;
    proof {
        reveal(Seq::filter);
        assert(task::each_task(tasks@).len() == manager::tasks_at(m, keys).len());
        assert(each_status(statuses@) =~= statuses_of(
            m,
            group_keys(m, keys.take(0), group),
            with_progress,
        ));
    }
    while i < tasks.len()
        invariant
            i <= tasks@.len() == keys.len(),
            m == manager@,
            manager.wf(),
            manager::lists(keys, m),
            task::each_task(tasks@) == manager::tasks_at(m, keys),
            each_status(statuses@) == statuses_of(
                m,
                group_keys(m, keys.take(i as int), group),
                with_progress,
            ),
        decreases tasks@.len() - i,
    {
        let ghost k = keys[i as int];
        proof {
            reveal(Seq::filter);
            assert(keys.take(i + 1).drop_last() =~= keys.take(i as int));
            assert(task::each_task(tasks@)[i as int] == tasks@[i as int]@);
            assert(manager::tasks_at(m, keys)[i as int] == m[k].task);
            assert(keys.to_set().contains(k));
        }
        let ghost so_far = statuses@;
        let ghost kept = group_keys(m, keys.take(i as int), group);
        let task = &tasks[i];
        if is_in(group, task) {
            let progress: Option<DownloadProgress> = if with_progress {
                manager.latest_progress(&task.id)
            } else {
                None
            };
            let status = types::task_to_status(task, &progress);
            statuses.push(status);
            proof {
                assert(group_keys(m, keys.take(i + 1), group) == kept.push(k));
                assert(each_status(statuses@) =~= each_status(so_far).push(status@));
                assert(statuses_of(m, kept.push(k), with_progress) =~= statuses_of(
                    m,
                    kept,
                    with_progress,
                ).push(status@));
            }
        }
        i += 1;
    }
    assert(keys.take(i as int) =~= keys);
    statuses
}

/// GET /api/tellActive: the active tasks with their progress, in no particular
/// order.
pub fn tell_active(manager: &DownloadManager) -> (statuses: Vec<StatusResponse>)
    requires
        manager.wf(),
    ensures
        exists|keys: Seq<Seq<char>>|
            manager::lists(keys, manager@) && each_status(statuses@) == statuses_of(
                manager@,
                #[trigger] group_keys(manager@, keys, Group::Active),
                true,
            ),
{
    tell_group(manager, Group::Active, true)
}

/// GET /api/tellWaiting: the queued and paused tasks, in no particular order.
pub fn tell_waiting(manager: &DownloadManager) -> (statuses: Vec<StatusResponse>)
    requires
        manager.wf(),
    ensures
        exists|keys: Seq<Seq<char>>|
            manager::lists(keys, manager@) && each_status(statuses@) == statuses_of(
                manager@,
                #[trigger] group_keys(manager@, keys, Group::Waiting),
                false,
            ),
{
    tell_group(manager, Group::Waiting, false)
}

/// GET /api/tellStopped: the completed and failed tasks, in no particular order.
pub fn tell_stopped(manager: &DownloadManager) -> (statuses: Vec<StatusResponse>)
    requires
        manager.wf(),
    ensures
        exists|keys: Seq<Seq<char>>|
            manager::lists(keys, manager@) && each_status(statuses@) == statuses_of(
                manager@,
                #[trigger] group_keys(manager@, keys, Group::Stopped),
                false,
            ),
{
    tell_group(manager, Group::Stopped, false)
}

// ─── Control ─────────────────────────────────────────────────────────────────

/// PUT /api/pause/:gid
pub fn pause(manager: &mut DownloadManager, gid: String) -> (r: Result<OkResponse, ApiError>)
    requires
        old(manager).wf(),
    ensures
        final(manager).wf(),
        final(manager).settings() == old(manager).settings(),
        final(manager)@ == manager::paused(old(manager)@, gid@),
        match r {
            Ok(response) => old(manager)@.contains_key(gid@) && response.result@ == "OK"@,
            Err(e) => !old(manager)@.contains_key(gid@) && is_error(
                e,
                500,
                manager::not_found(gid@),
            ),
        },
{
    let id = TaskId(gid);
    match manager.pause(&id) {
        Ok(()) => Ok(OkResponse::ok()),
        Err(e) => Err(ApiError::internal(e.as_str())),
    }
}

/// PUT /api/resume/:gid. With the answer comes whether the task has to be started
/// again.
pub fn resume(manager: &mut DownloadManager, gid: String) -> (r: Result<
    (OkResponse, bool),
    ApiError,
>)
    requires
        old(manager).wf(),
    ensures
        final(manager).wf(),
        final(manager).settings() == old(manager).settings(),
        final(manager)@ == manager::resumed(old(manager)@, gid@),
        match r {
            Ok((response, start)) => {
                &&& old(manager)@.contains_key(gid@)
                &&& response.result@ == "OK"@
                &&& start == (old(manager)@[gid@].task.state is Paused)
            },
            Err(e) => !old(manager)@.contains_key(gid@) && is_error(
                e,
                500,
                manager::not_found(gid@),
            ),
        },
{
    let id = TaskId(gid);
    match manager.resume(&id) {
        Ok(start) => Ok((OkResponse::ok(), start)),
        Err(e) => Err(ApiError::internal(e.as_str())),
    }
}

/// DELETE /api/remove/:gid: the task is cancelled. An unknown task is no error.
/// With the answer comes the file to delete, if that was asked for and there is
/// one.
pub fn remove(manager: &mut DownloadManager, gid: String, remove_file: bool) -> (r: (
    OkResponse,
    Option<FilePath>,
))
    requires
        old(manager).wf(),
    ensures
        final(manager).wf(),
        final(manager).settings() == old(manager).settings(),
        final(manager)@ == old(manager)@.remove(gid@),
        r.0.result@ == "OK"@,
        path::opt(r.1) == (if remove_file && old(manager)@.contains_key(gid@) {
            old(manager)@[gid@].task.output_path
        } else {
            None
        }),
{
    let id = TaskId(gid);
    let file = manager.cancel(&id, remove_file);
    (OkResponse::ok(), file)
}

// ─── Statistics ──────────────────────────────────────────────────────────────

/// The number of tasks that belong to the group.
pub open spec fn count_in(m: Map<Seq<char>, EntryView>, group: Group) -> nat {
    m.dom().filter(|k: Seq<char>| belongs(group, m[k].task.state)).len()
}

proof fn lemma_count(m: Map<Seq<char>, EntryView>, keys: Seq<Seq<char>>, group: Group)
    requires
        manager::lists(keys, m),
    ensures
        group_keys(m, keys, group).len() == count_in(m, group),
{
    let p = |k: Seq<char>| belongs(group, m[k].task.state);
    lemma_filter_set(keys, p);
    let kept = keys.filter(p);
    kept.unique_seq_to_set();
    assert(kept.to_set() =~= m.dom().filter(p));
}

proof fn lemma_filter_set(keys: Seq<Seq<char>>, p: spec_fn(Seq<char>) -> bool)
    requires
        keys.no_duplicates(),
    ensures
        keys.filter(p).no_duplicates(),
        forall|k: Seq<char>| #[trigger]
            keys.filter(p).to_set().contains(k) <==> keys.contains(k) && p(k),
    decreases keys.len(),
{
    reveal(Seq::filter);
    if keys.len() > 0 {
        let front = keys.drop_last();
        lemma_filter_set(front, p);
        let before = front.filter(p);
        let after = keys.filter(p);
        let last = keys.last();
        assert forall|k: Seq<char>| keys.contains(k) <==> front.contains(k) || k == last by {
            if keys.contains(k) && k != last {
                let i = choose|i: int| 0 <= i < keys.len() && keys[i] == k;
                assert(front[i] == k);
            }
            if front.contains(k) {
                let i = choose|i: int| 0 <= i < front.len() && front[i] == k;
                assert(keys[i] == k);
            }
            assert(keys[keys.len() - 1] == last);
        }
        assert(!front.contains(last)) by {
            if front.contains(last) {
                let i = choose|i: int| 0 <= i < front.len() && front[i] == last;
                assert(keys[i] != keys[keys.len() - 1]);
            }
        }
        if p(last) {
            assert(after == before.push(last));
            assert(!before.to_set().contains(last));
            assert forall|k: Seq<char>| #[trigger] after.to_set().contains(k) <==> before.to_set().contains(
                k,
            ) || k == last by {
                if after.contains(k) && k != last {
                    let i = choose|i: int| 0 <= i < after.len() && after[i] == k;
                    assert(before[i] == k);
                }
                if before.contains(k) {
                    let i = choose|i: int| 0 <= i < before.len() && before[i] == k;
                    assert(after[i] == k);
                }
                assert(after[before.len() as int] == last);
            }
            assert forall|i: int, j: int| 0 <= i < j < after.len() implies after[i] != after[j] by {
                if j == before.len() {
                    assert(before.to_set().contains(before[i]));
                }
            }
        } else {
            assert(after == before);
        }
    }
}

/// How many tasks are in a group.
fn count_group(manager: &DownloadManager, group: Group) -> (n: usize)
    ensures
        n == count_in(manager@, group),
{
    let tasks = manager.list();
    let ghost m = manager@;
    let ghost keys = choose|keys: Seq<Seq<char>>|
        manager::lists(keys, m) && task::each_task(tasks@) == #[trigger] manager::tasks_at(m, keys);
    let mut n: usize = 0;
    let mut i: usize = 0;
    proof {
        reveal(Seq::filter);
        assert(task::each_task(tasks@).len() == manager::tasks_at(m, keys).len());
    }
    while i < tasks.len()
        invariant
            i <= tasks@.len() == keys.len(),
            n <= i,
            task::each_task(tasks@) == manager::tasks_at(m, keys),
            n == group_keys(m, keys.take(i as int), group).len(),
        decreases tasks@.len() - i,
    {
        proof {
            reveal(Seq::filter);
            assert(keys.take(i + 1).drop_last() =~= keys.take(i as int));
            assert(task::each_task(tasks@)[i as int] == tasks@[i as int]@);
            assert(manager::tasks_at(m, keys)[i as int] == m[keys[i as int]].task);
        }
        if is_in(group, &tasks[i]) {
            n += 1;
        }
        i += 1;
    }
    proof {
        assert(keys.take(i as int) =~= keys);
        lemma_count(m, keys, group);
    }
    n
}

/// GET /api/getGlobalStat
pub fn global_stat(manager: &DownloadManager) -> (stat: GlobalStatResponse)
    ensures
        stat.download_speed@ == "0"@,
        stat.num_active == count_in(manager@, Group::Active) as u32,
        stat.num_waiting == count_in(manager@, Group::Waiting) as u32,
        stat.num_stopped == count_in(manager@, Group::Stopped) as u32,
{
    let active: usize = count_group(manager, Group::Active);
    let waiting: usize = count_group(manager, Group::Waiting);
    let stopped: usize = count_group(manager, Group::Stopped);
    GlobalStatResponse {
        download_speed: "0".to_string(),
        num_active: active as u32,
        num_waiting: waiting as u32,
        num_stopped: stopped as u32,
    }
}

/// The speed at which a task is downloaded, by its latest report; none where it is
/// not active.
pub open spec fn speed_of(m: Map<Seq<char>, EntryView>, k: Seq<char>) -> int {
    match manager::latest_of(m, k) {
        Some(p) => if belongs(Group::Active, m[k].task.state) {
            p.speed_bps as int
        } else {
            0
        },
        None => 0,
    }
}

/// The speeds of these tasks, added up.
pub open spec fn sum_speeds(m: Map<Seq<char>, EntryView>, keys: Seq<Seq<char>>) -> int
    decreases keys.len(),
{
    if keys.len() == 0 {
        0
    } else {
        sum_speeds(m, keys.drop_last()) + speed_of(m, keys.last())
    }
}

/// The speed of all active downloads together, in whatever order they are listed;
/// at most the largest number there is.
pub open spec fn is_total_speed(n: u64, m: Map<Seq<char>, EntryView>) -> bool {
    forall|keys: Seq<Seq<char>>|
        #![trigger sum_speeds(m, keys)]
        manager::lists(keys, m) ==> n == (if sum_speeds(m, keys) <= u64::MAX {
            sum_speeds(m, keys)
        } else {
            u64::MAX as int
        })
}

proof fn lemma_sum_without(m: Map<Seq<char>, EntryView>, keys: Seq<Seq<char>>, j: int)
    requires
        0 <= j < keys.len(),
    ensures
        sum_speeds(m, keys) == sum_speeds(m, keys.remove(j)) + speed_of(m, keys[j]),
    decreases keys.len(),
{
    if j == keys.len() - 1 {
        assert(keys.remove(j) =~= keys.drop_last());
    } else {
        lemma_sum_without(m, keys.drop_last(), j);
        assert(keys.remove(j).drop_last() =~= keys.drop_last().remove(j));
        assert(keys.remove(j).last() == keys.last());
    }
}

proof fn lemma_order_does_not_matter(
    m: Map<Seq<char>, EntryView>,
    a: Seq<Seq<char>>,
    b: Seq<Seq<char>>,
)
    requires
        a.no_duplicates(),
        b.no_duplicates(),
        a.to_set() == b.to_set(),
    ensures
        sum_speeds(m, a) == sum_speeds(m, b),
    decreases a.len(),
{
    a.unique_seq_to_set();
    b.unique_seq_to_set();
    if a.len() > 0 {
        let x = a.last();
        assert(a.to_set().contains(x));
        assert(b.contains(x));
        let j = choose|j: int| 0 <= j < b.len() && b[j] == x;
        let a2 = a.drop_last();
        let b2 = b.remove(j);
        assert forall|k: Seq<char>| a2.to_set().contains(k) <==> b2.to_set().contains(k) by {
            if a2.to_set().contains(k) {
                let p = choose|p: int| 0 <= p < a2.len() && a2[p] == k;
                assert(a[p] == k);
                assert(a.to_set().contains(k));
                assert(b.contains(k));
                let q = choose|q: int| 0 <= q < b.len() && b[q] == k;
                assert(k != x);
                assert(b2[if q < j { q } else { q - 1 }] == k);
            }
            if b2.to_set().contains(k) {
                let p = choose|p: int| 0 <= p < b2.len() && b2[p] == k;
                let q = if p < j { p } else { p + 1 };
                assert(b[q] == k);
                assert(b.to_set().contains(k));
                assert(a.contains(k));
                let r = choose|r: int| 0 <= r < a.len() && a[r] == k;
                assert(k != x);
                assert(a2[r] == k);
            }
        }
        assert(a2.to_set() =~= b2.to_set());
        assert(a2.no_duplicates());
        assert(b2.no_duplicates());
        lemma_order_does_not_matter(m, a2, b2);
        lemma_sum_without(m, b, j);
    }
}

/// The speed of all active downloads together.
pub fn total_speed(manager: &DownloadManager) -> (n: u64)
    requires
        manager.wf(),
    ensures
        is_total_speed(n, manager@),
{
    let tasks = manager.list();
    let ghost m = manager@;
    let ghost keys = choose|keys: Seq<Seq<char>>|
        manager::lists(keys, m) && task::each_task(tasks@) == #[trigger] manager::tasks_at(m, keys);
    let mut n: u64 = 0;
    let mut i: usize = 0;
    assert(task::each_task(tasks@).len() == manager::tasks_at(m, keys).len());
    while i < tasks.len()
        invariant
            i <= tasks@.len() == keys.len(),
            m == manager@,
            manager.wf(),
            manager::lists(keys, m),
            task::each_task(tasks@) == manager::tasks_at(m, keys),
            0 <= sum_speeds(m, keys.take(i as int)),
            n == (if sum_speeds(m, keys.take(i as int)) <= u64::MAX {
                sum_speeds(m, keys.take(i as int))
            } else {
                u64::MAX as int
            }),
        decreases tasks@.len() - i,
    {
        let ghost k = keys[i as int];
        proof {
            assert(keys.take(i + 1).drop_last() =~= keys.take(i as int));
            assert(task::each_task(tasks@)[i as int] == tasks@[i as int]@);
            assert(manager::tasks_at(m, keys)[i as int] == m[k].task);
            assert(keys.to_set().contains(k));
        }
        let task = &tasks[i];
        if task.state.is_active() {
            if let Some(progress) = manager.latest_progress(&task.id) {
                n = n.saturating_add(progress.speed_bps);
            }
        }
        i += 1;
    }
    proof {
        assert(keys.take(i as int) =~= keys);
        assert forall|other: Seq<Seq<char>>|
            #![trigger sum_speeds(m, other)]
            manager::lists(other, m) implies sum_speeds(m, other) == sum_speeds(m, keys) by {
            lemma_order_does_not_matter(m, other, keys);
        }
    }
    n
}

/// What is streamed to global listeners: the speed over all downloads, and how many
/// tasks there are of each kind; paused tasks are in none.
#[derive(Debug, Clone, Copy)]
pub struct GlobalCounts {
    pub speed_bps: u64,
    pub active: usize,
    pub waiting: usize,
    pub stopped: usize,
}

/// What is streamed to global listeners.
pub fn global_counts(manager: &DownloadManager) -> (counts: GlobalCounts)
    requires
        manager.wf(),
    ensures
        is_total_speed(counts.speed_bps, manager@),
        counts.active == count_in(manager@, Group::Active),
        counts.waiting == count_in(manager@, Group::Queued),
        counts.stopped == count_in(manager@, Group::Stopped),
{
    GlobalCounts {
        speed_bps: total_speed(manager),
        active: count_group(manager, Group::Active),
        waiting: count_group(manager, Group::Queued),
        stopped: count_group(manager, Group::Stopped),
    }
}

/// Whether a progress stream goes on after this report was sent: it ends with a
/// download that is complete or failed.
pub fn keeps_streaming(progress: &Option<DownloadProgress>) -> (r: bool)
    ensures
        r == !(task::progress_view(*progress) matches Some(p) && p.state.terminal()),
{
    match progress {
        Some(p) => !p.state.is_terminal(),
        None => true,
    }
}

// ─── Laws ────────────────────────────────────────────────────────────────────

/// Every task is active, waiting or stopped, and only one of these; so the three
/// counts add up to the number of tasks.
pub proof fn groups_divide_the_tasks(m: Map<Seq<char>, EntryView>)
    requires
        m.dom().finite(),
    ensures
        count_in(m, Group::Active) + count_in(m, Group::Waiting) + count_in(m, Group::Stopped)
            == m.dom().len(),
        forall|state: StateView|
            (belongs(Group::Active, state) || belongs(Group::Waiting, state) || #[trigger] belongs(
                Group::Stopped,
                state,
            )) && !(belongs(Group::Active, state) && belongs(Group::Waiting, state)) && !(belongs(
                Group::Active,
                state,
            ) && belongs(Group::Stopped, state)) && !(belongs(Group::Waiting, state) && belongs(
                Group::Stopped,
                state,
            )),
{
    let a = m.dom().filter(|k: Seq<char>| belongs(Group::Active, m[k].task.state));
    let w = m.dom().filter(|k: Seq<char>| belongs(Group::Waiting, m[k].task.state));
    let s = m.dom().filter(|k: Seq<char>| belongs(Group::Stopped, m[k].task.state));
    vstd::set_lib::lemma_set_disjoint_lens(a, w);
    vstd::set_lib::lemma_set_disjoint_lens(a + w, s);
    assert(a + w + s =~= m.dom());
}

/// A download that was added is found under the identifier that was answered,
/// waiting and with nothing downloaded.
pub proof fn an_added_task_is_waiting(
    before: Map<Seq<char>, EntryView>,
    gid: Seq<char>,
    list: Seq<Seq<char>>,
    options: OptionsView,
    now: Timestamp,
)
    ensures
        ({
            let t = task::queued_task(gid, list, options, now);
            let after = manager::with_task(before, gid, t);
            &&& after.contains_key(gid)
            &&& belongs(Group::Waiting, after[gid].task.state)
            &&& types::status_of(after[gid].task, None).status == "waiting"@
            &&& types::status_of(after[gid].task, None).completed_length == text::decimal(0)
        }),
{
}

/// A cancelled task is gone: asking for it, pausing or resuming it finds nothing,
/// and no other task is touched.
pub proof fn a_removed_task_is_gone(m: Map<Seq<char>, EntryView>, gid: Seq<char>)
    ensures
        ({
            let after = m.remove(gid);
            &&& !after.contains_key(gid)
            &&& manager::paused(after, gid) == after
            &&& manager::resumed(after, gid) == after
            &&& forall|k: Seq<char>|
                k != gid ==> (#[trigger] after.contains_key(k) <==> m.contains_key(k)) && after[k]
                    == m[k]
        }),
{
}

/// With a secret, a request is let in exactly if its header is the word "bearer", in
/// whatever case, then a space and the secret; without one, every request is.
pub proof fn only_the_secret_opens(secret: Seq<char>, header: Option<Seq<char>>)
    ensures
        permitted(None, token_in(header)),
        permitted(Some(secret), token_in(header)) <==> header is Some && exists|scheme: Seq<char>|
            !scheme.contains(' ') && text::ascii_lowered(scheme) == "bearer"@ && header->0
                == #[trigger] scheme.push(' ') + secret,
        header_for(secret) == "Bearer "@ + secret,
{
    if let Some(h) = header {
        text::text_is_cut_at_the_first_separator(h, ' ');
        if permitted(Some(secret), token_in(header)) {
            let (scheme, token) = text::cut_at(h, ' ')->0;
            assert(h == scheme.push(' ') + secret);
        }
        if exists|scheme: Seq<char>|
            !scheme.contains(' ') && text::ascii_lowered(scheme) == "bearer"@ && h
                == #[trigger] scheme.push(' ') + secret {
            let scheme = choose|scheme: Seq<char>|
                !scheme.contains(' ') && text::ascii_lowered(scheme) == "bearer"@ && h
                    == #[trigger] scheme.push(' ') + secret;
            text::cutting_undoes_joining(scheme, ' ', secret);
        }
    }
}

/// A header line is a name, a colon and a value, with white space around them; a line
/// without a colon is none, and adds none to the headers.
pub proof fn header_lines_are_names_and_values(
    lines: Seq<Seq<char>>,
    name: Seq<char>,
    value: Seq<char>,
    other: Seq<char>,
)
    requires
        !name.contains(':'),
        !other.contains(':'),
    ensures
        headers_of(Seq::empty()) == Seq::<(Seq<char>, Seq<char>)>::empty(),
        headers_of(lines.push(name.push(':') + value)) == headers_of(lines).push(
            (text::trimmed(name), text::trimmed(value)),
        ),
        headers_of(lines.push(other)) == headers_of(lines),
{
    text::cutting_undoes_joining(name, ':', value);
    text::text_is_cut_at_the_first_separator(other, ':');
    assert(lines.push(name.push(':') + value).drop_last() =~= lines);
    assert(lines.push(other).drop_last() =~= lines);
}

/// The options of a request ask for what they say: each that is given is passed on, and
/// what is not given is left open.
pub proof fn requested_options_are_passed_on(
    o: AddOptions,
    checksum: Option<ChecksumView>,
    options: TaskOptions,
)
    requires
        options@ == options_of(o, checksum),
    ensures
        options.max_connections == o.max_connection_per_server,
        options.split == o.split,
        options.sequential <==> o.sequential_download == Some(true),
        text::opt(options.out) == text::opt(o.out),
        o.dir is Some <==> options.dir is Some,
        o.dir matches Some(d) ==> options.dir->0.bytes@ == vstd::utf8::encode_utf8(d@),
        o.max_download_limit matches Some(limit) ==> options.max_speed == limit,
        o.max_download_limit is None ==> options.max_speed == 0,
        checksum is Some <==> options.checksum is Some,
        checksum matches Some(c) ==> options.checksum->0.algorithm == c.algorithm
            && options.checksum->0.value@ == c.value,
        o.header is None ==> options.headers@.len() == 0,
        o.header matches Some(lines) ==> text::each_pair(options.headers@) == headers_of(
            text::each(lines@),
        ),
        text::opt(options.referer) == text::opt(o.referer),
        options.user_agent is None,
{
    text::strings_are_seen_by_their_characters(None, Seq::empty(), options.headers@);
}

/// A request to add a download is refused, and changes nothing, if a URL or the checksum
/// cannot be read, or if there is no URL; any other is registered as a queued task with
/// all its URLs and options, under the identifier that is answered, and touches no other
/// task.
pub proof fn a_request_is_registered_or_refused(
    parsed: Result<Seq<Seq<char>>, Seq<char>>,
    o: AddOptions,
    before: Map<Seq<char>, EntryView>,
    after: Map<Seq<char>, EntryView>,
    r: Result<AddUriResponse, ApiError>,
)
    requires
        added(parsed, o, before, after, r),
    ensures
        r is Ok <==> parsed is Ok && parsed->Ok_0.len() > 0 && cli::optional_checksum(
            text::opt(o.checksum),
        ) is Ok,
        r matches Err(e) ==> {
            &&& after == before
            &&& parsed is Err ==> e.status == 400 && e.message@ == parsed->Err_0
            &&& parsed is Ok && cli::optional_checksum(text::opt(o.checksum)) is Err ==> e.status
                == 400 && e.message@ == cli::optional_checksum(text::opt(o.checksum))->Err_0
            &&& parsed is Ok && cli::optional_checksum(text::opt(o.checksum)) is Ok ==> e.status
                == 500
        },
        r matches Ok(response) ==> {
            let gid = response.gid@;
            &&& after.contains_key(gid)
            &&& after[gid].task.id == gid
            &&& after[gid].task.urls == parsed->Ok_0
            &&& after[gid].task.state is Queued
            &&& after[gid].task.options == options_of(
                o,
                cli::optional_checksum(text::opt(o.checksum))->Ok_0,
            )
            &&& manager::only_changes(before, after, gid)
        },
{
}

/// Tasks are told by their states: the active ones are being probed, downloaded or
/// assembled, the waiting ones queued or paused, the stopped ones complete or failed.
pub proof fn groups_are_told_by_state(state: task::DownloadState)
    ensures
        belongs(Group::Active, state@) <==> state is Probing || state is Active || state
            is Assembling,
        belongs(Group::Waiting, state@) <==> state is Queued || state is Paused,
        belongs(Group::Stopped, state@) <==> state is Complete || state is Error,
        belongs(Group::Queued, state@) <==> state is Queued,
{
}

/// A group is told with the tasks that belong to it, each once and no other; each with
/// its own status, and with its latest progress where that is told, too.
pub proof fn a_group_is_told_with_its_tasks(
    m: Map<Seq<char>, EntryView>,
    keys: Seq<Seq<char>>,
    group: Group,
    k: Seq<char>,
    with_progress: bool,
)
    ensures
        group_keys(m, Seq::empty(), group) == Seq::<Seq<char>>::empty(),
        belongs(group, m[k].task.state) ==> group_keys(m, keys.push(k), group) == group_keys(
            m,
            keys,
            group,
        ).push(k),
        !belongs(group, m[k].task.state) ==> group_keys(m, keys.push(k), group) == group_keys(
            m,
            keys,
            group,
        ),
        statuses_of(m, keys, with_progress).len() == keys.len(),
        forall|i: int|
            0 <= i < keys.len() ==> {
                let status = #[trigger] statuses_of(m, keys, with_progress)[i];
                &&& status.gid == m[keys[i]].task.id
                &&& with_progress ==> status == types::status_of(
                    m[keys[i]].task,
                    manager::latest_of(m, keys[i]),
                )
                &&& !with_progress ==> status == types::status_of(m[keys[i]].task, None)
            },
        forall|statuses: Seq<StatusResponse>, i: int|
            0 <= i < statuses.len() ==> #[trigger] each_status(statuses)[i] == statuses[i]@,
        forall|statuses: Seq<StatusResponse>| (#[trigger] each_status(statuses)).len()
            == statuses.len(),
{
    reveal(Seq::filter);
    assert(keys.push(k).drop_last() =~= keys);
    assert(group_keys(m, Seq::empty(), group) =~= Seq::<Seq<char>>::empty());
}

/// One more task is counted in the groups that it belongs to, and in no other; and in an
/// empty registry there is nothing to count.
pub proof fn one_more_task_is_counted(
    m: Map<Seq<char>, EntryView>,
    k: Seq<char>,
    e: EntryView,
    group: Group,
)
    requires
        m.dom().finite(),
        !m.contains_key(k),
    ensures
        count_in(Map::empty(), group) == 0,
        belongs(group, e.task.state) ==> count_in(m.insert(k, e), group) == count_in(m, group) + 1,
        !belongs(group, e.task.state) ==> count_in(m.insert(k, e), group) == count_in(m, group),
{
    let p = |x: Seq<char>| belongs(group, m[x].task.state);
    let after = m.insert(k, e);
    let q = |x: Seq<char>| belongs(group, after[x].task.state);
    let before = m.dom().filter(p);
    let now = after.dom().filter(q);
    if belongs(group, e.task.state) {
        assert(now =~= before.insert(k));
    } else {
        assert(now =~= before);
    }
    let none = Map::<Seq<char>, EntryView>::empty();
    assert(none.dom().filter(|x: Seq<char>| belongs(group, none[x].task.state)) =~= Set::empty());
}

/// The speed of all downloads is that of the active ones, each by its latest report, added
/// up; a task that is not active, or has not reported, adds nothing.
pub proof fn speeds_add_up(m: Map<Seq<char>, EntryView>, keys: Seq<Seq<char>>, k: Seq<char>)
    ensures
        sum_speeds(m, Seq::empty()) == 0,
        ({
            let state = m[k].task.state;
            let active = state is Active || state is Probing || state is Assembling;
            let latest = manager::latest_of(m, k);
            &&& active && latest is Some ==> sum_speeds(m, keys.push(k)) == sum_speeds(m, keys)
                + latest->0.speed_bps
            &&& !active || latest is None ==> sum_speeds(m, keys.push(k)) == sum_speeds(m, keys)
        }),
{
    assert(keys.push(k).drop_last() =~= keys);
}

/// The speed of all downloads is their speeds added up, whatever the order; the largest
/// number where the sum is larger.
pub proof fn the_total_speed_is_the_sum(
    n: u64,
    m: Map<Seq<char>, EntryView>,
    keys: Seq<Seq<char>>,
)
    requires
        is_total_speed(n, m),
        manager::lists(keys, m),
    ensures
        sum_speeds(m, keys) <= u64::MAX ==> n == sum_speeds(m, keys),
        sum_speeds(m, keys) > u64::MAX ==> n == u64::MAX,
{
}

/// An error carries its status and its message.
pub proof fn errors_carry_their_status(e: ApiError, status: u16, message: Seq<char>)
    requires
        is_error(e, status, message),
    ensures
        e.status == status,
        e.message@ == message,
{
}

/// What was added is named by a random identifier: 32 digits of base sixteen, in groups of
/// 8, 4, 4, 4 and 12.
pub proof fn an_added_task_has_an_identifier(
    parsed: Result<Seq<Seq<char>>, Seq<char>>,
    o: AddOptions,
    before: Map<Seq<char>, EntryView>,
    after: Map<Seq<char>, EntryView>,
    r: Result<AddUriResponse, ApiError>,
)
    requires
        added(parsed, o, before, after, r),
        r is Ok,
    ensures
        ({
            let gid = r->Ok_0.gid@;
            &&& gid.len() == 36
            &&& forall|i: int|
                0 <= i < 36 ==> if i == 8 || i == 13 || i == 18 || i == 23 {
                    #[trigger] gid[i] == '-'
                } else {
                    (48 <= gid[i] as u32 <= 57) || (97 <= gid[i] as u32 <= 102)
                }
        }),
{
    let gid = r->Ok_0.gid@;
    assert(task::is_gid(gid));
    assert forall|i: int| 0 <= i < 36 implies if i == 8 || i == 13 || i == 18 || i == 23 {
        #[trigger] gid[i] == '-'
    } else {
        (48 <= gid[i] as u32 <= 57) || (97 <= gid[i] as u32 <= 102)
    } by {
        assert(!(i == 8 || i == 13 || i == 18 || i == 23) ==> task::is_hex(gid[i]));
    }
}

} // verus!
