//! How the desktop program finds a server, and what it asks it.

use vstd::prelude::*;

use crate::json::text_member;
#[allow(unused_imports)]
use crate::json::json_members;
use crate::path::{path_file_name, path_parent};
use crate::text::{chars_of, decimal_text, find_text, from_utf8_lossy, has_text, joined, text_of};
#[allow(unused_imports)]
use crate::text::{decimal, first_occurrence, lossy_text};
use crate::util::{scan_supported_files, Listing};
#[allow(unused_imports)]
use crate::order::{stably_sorted, views};

verus! {

/// The request for the workspace that the server on a port has open.
pub open spec fn workspace_request_text(port: u16) -> Seq<char> {
    "GET /api/workspace/current HTTP/1.1\r\nHost: 127.0.0.1:"@ + decimal(port as nat)
        + "\r\nConnection: close\r\n\r\n"@
}

/// The request for the workspace that the server on a port has open.
pub fn workspace_request(port: u16) -> (request: String)
    ensures
        request@ == workspace_request_text(port),
{
    let mut request = joined(
        "GET /api/workspace/current HTTP/1.1\r\nHost: 127.0.0.1:",
        decimal_text(port as u128).as_str(),
    );
    request.append("\r\nConnection: close\r\n\r\n");
    request
}

/// The part of a response behind the first empty line, up to the next empty
/// line.
pub open spec fn response_body(response: Seq<char>) -> Option<Seq<char>> {
    match first_occurrence(response, "\r\n\r\n"@, 0) {
        Some(i) => {
            let rest = response.skip(i + 4);
            match first_occurrence(rest, "\r\n\r\n"@, 0) {
                Some(j) => Some(rest.take(j)),
                None => Some(rest),
            }
        },
        None => None,
    }
}

fn body_of(response: &str) -> (body: Option<String>)
    ensures
        crate::state::text_view(body) == response_body(response@),
{
    let chars = chars_of(response);
    let gap = chars_of("\r\n\r\n");
    proof {
        reveal_strlit("\r\n\r\n");
        crate::text::lemma_first_occurrence(chars@, gap@, 0);
    }
    match find_text(&chars, &gap, 0) {
        Some(i) => {
            assert(crate::text::occurs_at(chars@, gap@, i as int));
            let end: usize = chars.len();
            let rest = vstd::slice::slice_to_vec(
                vstd::slice::slice_subrange(chars.as_slice(), i + 4, end),
            );
            assert(rest@ =~= response@.skip(i + 4));
            proof {
                crate::text::lemma_first_occurrence(rest@, gap@, 0);
            }
            match find_text(&rest, &gap, 0) {
                Some(j) => {
                    let body = text_of(
                        vstd::slice::slice_subrange(rest.as_slice(), 0, j),
                    );
                    assert(body@ =~= rest@.take(j as int));
                    Some(body)
                },
                None => Some(text_of(rest.as_slice())),
            }
        },
        None => None,
    }
}

/// The workspace that a response to [`workspace_request`] names.
pub fn workspace_in_response(response: &[u8]) -> (base_dir: Option<String>)
    ensures
        crate::state::text_view(base_dir) == (match response_body(lossy_text(response@)) {
            Some(body) => match json_members(vstd::utf8::encode_utf8(body)) {
                Some(members) => if members.contains_key("base_dir"@) {
                    Some(members["base_dir"@])
                } else {
                    None
                },
                None => None,
            },
            None => None,
        }),
{
    match body_of(from_utf8_lossy(response).as_str()) {
        Some(body) => text_member(body.as_str().as_bytes(), "base_dir"),
        None => None,
    }
}

/// Whether a response to [`workspace_request`] comes from a server of this
/// program.
pub fn is_mdlive_response(response: &[u8]) -> (r: bool)
    ensures
        r == crate::text::contains_text(lossy_text(response@), "\"success\""@),
{
    has_text(from_utf8_lossy(response).as_str(), "\"success\"")
}

/// The search for a server that is already running.
#[derive(Clone, Copy, Debug, PartialEq, Eq, Structural)]
pub enum ServerSearch {
    /// Ask the server on the default port.
    AskDefault,
    /// Read the port that a server has written down.
    ReadPort,
    /// Ask the server on the port that was written down.
    AskRecorded(u16),
    /// Delete the port that was written down: its server is gone.
    DeletePort,
    /// There is a server on this port.
    Found(u16),
    NotFound,
}

/// What came of a step of the search.
#[derive(Clone, Copy, Debug, PartialEq, Eq, Structural)]
pub enum SearchEvent {
    /// Whether a server of this program answered.
    Answered(bool),
    /// The port that was written down, if any.
    Recorded(Option<u16>),
    Deleted,
}

/// The next step of the search.
pub open spec fn next_search(search: ServerSearch, event: SearchEvent, default_port: u16) -> ServerSearch {
    match (search, event) {
        (ServerSearch::AskDefault, SearchEvent::Answered(yes)) => if yes {
            ServerSearch::Found(default_port)
        } else {
            ServerSearch::ReadPort
        },
        (ServerSearch::ReadPort, SearchEvent::Recorded(port)) => match port {
            Some(port) => if port != default_port {
                ServerSearch::AskRecorded(port)
            } else {
                ServerSearch::DeletePort
            },
            None => ServerSearch::NotFound,
        },
        (ServerSearch::AskRecorded(port), SearchEvent::Answered(yes)) => if yes {
            ServerSearch::Found(port)
        } else {
            ServerSearch::DeletePort
        },
        (ServerSearch::DeletePort, SearchEvent::Deleted) => ServerSearch::NotFound,
        _ => search,
    }
}

impl ServerSearch {
    /// The first step of the search.
    pub fn start() -> (search: ServerSearch)
        ensures
            search == ServerSearch::AskDefault,
    {
        ServerSearch::AskDefault
    }

    /// The next step of the search. An event that does not belong to the step
    /// changes nothing.
    pub fn next(self, event: SearchEvent, default_port: u16) -> (search: ServerSearch)
        ensures
            search == next_search(self, event, default_port),
    {
        match (self, event) {
            (ServerSearch::AskDefault, SearchEvent::Answered(yes)) => if yes {
                ServerSearch::Found(default_port)
            } else {
                ServerSearch::ReadPort
            },
            (ServerSearch::ReadPort, SearchEvent::Recorded(port)) => match port {
                Some(port) => if port != default_port {
                    ServerSearch::AskRecorded(port)
                } else {
                    ServerSearch::DeletePort
                },
                None => ServerSearch::NotFound,
            },
            (ServerSearch::AskRecorded(port), SearchEvent::Answered(yes)) => if yes {
                ServerSearch::Found(port)
            } else {
                ServerSearch::DeletePort
            },
            (ServerSearch::DeletePort, SearchEvent::Deleted) => ServerSearch::NotFound,
            _ => self,
        }
    }
}

/// Whether an event can be what came of a step.
pub open spec fn belongs(search: ServerSearch, event: SearchEvent) -> bool {
    match search {
        ServerSearch::AskDefault | ServerSearch::AskRecorded(_) => event is Answered,
        ServerSearch::ReadPort => event is Recorded,
        ServerSearch::DeletePort => event is Deleted,
        ServerSearch::Found(_) | ServerSearch::NotFound => false,
    }
}

/// How many steps of the search are left at most.
pub open spec fn steps_left(search: ServerSearch) -> nat {
    match search {
        ServerSearch::AskDefault => 4,
        ServerSearch::ReadPort => 3,
        ServerSearch::AskRecorded(_) => 2,
        ServerSearch::DeletePort => 1,
        ServerSearch::Found(_) | ServerSearch::NotFound => 0,
    }
}

/// Every step brings the search nearer to its end.
pub proof fn law_search_ends(search: ServerSearch, event: SearchEvent, default_port: u16)
    requires
        belongs(search, event),
    ensures
        steps_left(next_search(search, event, default_port)) < steps_left(search),
{
}

/// A server is found only on a port on which one has just answered.
pub proof fn law_found_server_answered(search: ServerSearch, event: SearchEvent, default_port: u16, port: u16)
    requires
        !(search is Found),
        next_search(search, event, default_port) == ServerSearch::Found(port),
    ensures
        event == SearchEvent::Answered(true),
        search == ServerSearch::AskDefault && port == default_port || search
            == ServerSearch::AskRecorded(port),
{
}

/// A port that was written down is never kept when no server answers on it.
pub proof fn law_stale_port_is_deleted(
    search: ServerSearch,
    event: SearchEvent,
    default_port: u16,
)
    requires
        !(search is NotFound),
        next_search(search, event, default_port) is NotFound,
    ensures
        search == ServerSearch::DeletePort && event == SearchEvent::Deleted || search
            == ServerSearch::ReadPort && event == SearchEvent::Recorded(None),
{
}

/// What stands at a path that is to be opened.
pub enum PathContent {
    File,
    Directory(Listing),
    Other,
}

/// What a server is started with.
pub struct Workspace {
    pub base_dir: Vec<u8>,
    pub files: Vec<Vec<u8>>,
    pub is_directory_mode: bool,
}

/// The directory that a file is served from.
pub open spec fn directory_of(path: Seq<u8>) -> Seq<u8> {
    match crate::path::parent(path) {
        Some(dir) => dir,
        None => seq![crate::path::DOT],
    }
}

/// What a server for a path is started with: a single file with the directory
/// it lies in, or a directory with its supported files, of which there must be
/// some.
pub fn workspace_for_path(path: Vec<u8>, content: &PathContent) -> (workspace: Result<
    Workspace,
    String,
>)
    ensures
        match *content {
            PathContent::File => workspace matches Ok(w) && w.base_dir@ == directory_of(path@)
                && views(w.files@) == seq![path@] && !w.is_directory_mode,
            PathContent::Directory(listing) => match crate::util::supported_in(listing) {
                Ok(files) => if files.len() == 0 {
                    crate::text::fails_with(workspace, "no supported files in directory"@)
                } else {
                    workspace matches Ok(w) && w.base_dir@ == path@ && stably_sorted(
                        files,
                        views(w.files@),
                        crate::path::path_order(),
                    ) && w.is_directory_mode
                },
                Err(error) => crate::text::fails_with(workspace, error),
            },
            PathContent::Other => crate::text::fails_with(
                workspace,
                "path is not a file or directory"@,
            ),
        },
{
    match content {
        PathContent::File => {
            let base_dir = match path_parent(path.as_slice()) {
                Some(dir) => vstd::slice::slice_to_vec(dir),
                None => vec![crate::path::DOT],
            };
            let files = vec![path];
            assert(views(files@) =~= seq![path@]);
            Ok(Workspace { base_dir, files, is_directory_mode: false })
        },
        PathContent::Directory(listing) => {
            match scan_supported_files(listing) {
                Ok(files) => {
                    proof {
                        let found = crate::util::supported_in(*listing)->Ok_0;
                        found.to_multiset_ensures();
                        views(files@).to_multiset_ensures();
                    }
                    if files.len() == 0 {
                        Err("no supported files in directory".to_owned())
                    } else {
                        Ok(Workspace { base_dir: path, files, is_directory_mode: true })
                    }
                },
                Err(error) => Err(error),
            }
        },
        PathContent::Other => Err("path is not a file or directory".to_owned()),
    }
}

/// The address of the server on a port.
pub open spec fn server_address(port: u16) -> Seq<char> {
    "http://127.0.0.1:"@ + decimal(port as nat)
}

/// The address of the server on a port.
pub fn window_url(port: u16) -> (url: String)
    ensures
        url@ == server_address(port),
{
    joined("http://127.0.0.1:", decimal_text(port as u128).as_str())
}

/// The address of the server: the one that runs, or the default one.
pub fn get_server_url(port: Option<u16>, default_port: u16) -> (url: String)
    ensures
        url@ == server_address(
            match port {
                Some(port) => port,
                None => default_port,
            },
        ),
{
    match port {
        Some(port) => window_url(port),
        None => window_url(default_port),
    }
}

/// The address on which the server offers a choice of workspaces.
pub fn picker_url(port: u16) -> (url: String)
    ensures
        url@ == server_address(port) + "/?picker=1"@,
{
    joined(window_url(port).as_str(), "/?picker=1")
}

/// The label of the window of a workspace.
pub fn window_label(port: u16) -> (label: String)
    ensures
        label@ == "win-"@ + decimal(port as nat),
{
    joined("win-", decimal_text(port as u128).as_str())
}

/// The label of a window in which a workspace is chosen, opened at a time in
/// milliseconds since the start of 1970.
pub fn picker_label(stamp: u128) -> (label: String)
    ensures
        label@ == "picker-"@ + decimal(stamp as nat),
{
    joined("picker-", decimal_text(stamp).as_str())
}

/// The label of a main window that was opened again at a time in milliseconds
/// since the start of 1970.
pub fn reopened_label(stamp: u128) -> (label: String)
    ensures
        label@ == "main-"@ + decimal(stamp as nat),
{
    joined("main-", decimal_text(stamp).as_str())
}

/// The title of the window of a workspace.
pub open spec fn workspace_title(path: Seq<u8>) -> Seq<char> {
    "mdlive - "@ + lossy_text(
        match crate::path::file_name(path) {
            Some(name) => name,
            None => path,
        },
    )
}

/// The title of the window of a workspace.
pub fn window_title(path: &[u8]) -> (title: String)
    ensures
        title@ == workspace_title(path@),
{
    let name = match path_file_name(path) {
        Some(name) => from_utf8_lossy(name),
        None => from_utf8_lossy(path),
    };
    joined("mdlive - ", name.as_str())
}

/// The body of a response is what stands behind the first empty line, whole if it
/// holds no empty line itself.
pub proof fn law_response_body_is_what_was_sent(head: Seq<char>, body: Seq<char>)
    requires
        forall|i: int|
            0 <= i < head.len() ==> !#[trigger] crate::text::occurs_at(
                head + "\r\n\r\n"@ + body,
                "\r\n\r\n"@,
                i,
            ),
        !crate::text::contains_text(body, "\r\n\r\n"@),
    ensures
        response_body(head + "\r\n\r\n"@ + body) == Some(body),
{
    reveal_strlit("\r\n\r\n");
    let gap = "\r\n\r\n"@;
    let response = head + gap + body;
    let n = head.len() as int;
    crate::text::lemma_first_occurrence(response, gap, 0);
    assert(response.subrange(n, n + gap.len()) =~= gap);
    assert(crate::text::occurs_at(response, gap, n));
    assert(response.skip(n + 4) =~= body);
    crate::text::lemma_first_occurrence(body, gap, 0);
}

/// The directory that a file is served from has the components of its path but the
/// last, however deep it lies: the file name below it leads to the file, and is the
/// key of the file.
pub proof fn law_file_is_served_from_its_directory(path: Seq<u8>)
    requires
        crate::path::file_name(path) is Some,
    ensures
        ({
            let name = crate::path::file_name(path)->0;
            let dir = directory_of(path);
            &&& crate::path::components(dir) == crate::path::components(path).drop_last()
            &&& crate::path::components(crate::path::join(dir, name)) == crate::path::components(
                path,
            )
            &&& crate::path::strip_prefix(path, dir) == Some(name)
            &&& crate::path::key_below(dir, path) == lossy_text(name)
        }),
{
    crate::path::law_parent_drops_the_last_component(path);
    crate::path::law_key_in_the_parent_is_the_file_name(path);
}

/// A path without a parent is served from the current directory.
pub proof fn law_path_without_parent_is_served_from_here(path: Seq<u8>)
    requires
        crate::path::components(path).len() == 0 || crate::path::components(path) == seq![
            seq![crate::path::SLASH],
        ],
    ensures
        directory_of(path) == seq![crate::path::DOT],
{
    crate::path::law_parent_drops_the_last_component(path);
}

/// The request asks for the current workspace, names the server by its port, and ends
/// with an empty line.
pub proof fn law_request_asks_the_server_on_the_port(port: u16)
    ensures
        workspace_request_text(port) == "GET /api/workspace/current HTTP/1.1\r\n"@
            + "Host: 127.0.0.1:"@ + decimal(port as nat) + "\r\n"@ + "Connection: close\r\n"@
            + "\r\n"@,
{
    reveal_strlit("GET /api/workspace/current HTTP/1.1\r\nHost: 127.0.0.1:");
    reveal_strlit("\r\nConnection: close\r\n\r\n");
    reveal_strlit("GET /api/workspace/current HTTP/1.1\r\n");
    reveal_strlit("Host: 127.0.0.1:");
    reveal_strlit("Connection: close\r\n");
    reveal_strlit("\r\n");
    let d = decimal(port as nat);
    assert("GET /api/workspace/current HTTP/1.1\r\nHost: 127.0.0.1:"@
        =~= "GET /api/workspace/current HTTP/1.1\r\n"@ + "Host: 127.0.0.1:"@);
    assert("\r\nConnection: close\r\n\r\n"@ =~= "\r\n"@ + "Connection: close\r\n"@ + "\r\n"@);
    let a = "GET /api/workspace/current HTTP/1.1\r\n"@ + "Host: 127.0.0.1:"@ + d;
    assert(workspace_request_text(port) =~= a + "\r\n"@ + "Connection: close\r\n"@ + "\r\n"@);
}

/// A response without an empty line has no body, and a body ends at the next empty
/// line.
pub proof fn law_body_stands_between_empty_lines(
    response: Seq<char>,
    head: Seq<char>,
    body: Seq<char>,
    more: Seq<char>,
)
    ensures
        !crate::text::contains_text(response, "\r\n\r\n"@) ==> response_body(response) is None,
        (forall|i: int|
            0 <= i < head.len() ==> !#[trigger] crate::text::occurs_at(
                head + "\r\n\r\n"@ + (body + "\r\n\r\n"@ + more),
                "\r\n\r\n"@,
                i,
            )) && (forall|i: int|
            0 <= i < body.len() ==> !#[trigger] crate::text::occurs_at(
                body + "\r\n\r\n"@ + more,
                "\r\n\r\n"@,
                i,
            )) ==> response_body(head + "\r\n\r\n"@ + (body + "\r\n\r\n"@ + more)) == Some(body),
{
    reveal_strlit("\r\n\r\n");
    let gap = "\r\n\r\n"@;
    crate::text::lemma_first_occurrence(response, gap, 0);
    let rest = body + gap + more;
    let whole = head + gap + rest;
    let n = head.len() as int;
    crate::text::lemma_first_occurrence(whole, gap, 0);
    assert(whole.subrange(n, n + gap.len()) =~= gap);
    assert(crate::text::occurs_at(whole, gap, n));
    assert(whole.skip(n + 4) =~= rest);
    let m = body.len() as int;
    crate::text::lemma_first_occurrence(rest, gap, 0);
    assert(rest.subrange(m, m + gap.len()) =~= gap);
    assert(crate::text::occurs_at(rest, gap, m));
    assert(rest.take(m) =~= body);
}

/// A server that answers on the default port is found there, and else one that answers
/// on the port that was written down; a port on which none answers is deleted, and so
/// is the default port, which was asked already.
pub proof fn law_answering_server_is_found(default_port: u16, port: u16)
    ensures
        next_search(
            ServerSearch::AskDefault,
            SearchEvent::Answered(true),
            default_port,
        ) == ServerSearch::Found(default_port),
        next_search(
            ServerSearch::AskDefault,
            SearchEvent::Answered(false),
            default_port,
        ) == ServerSearch::ReadPort,
        port != default_port ==> next_search(
            ServerSearch::ReadPort,
            SearchEvent::Recorded(Some(port)),
            default_port,
        ) == ServerSearch::AskRecorded(port),
        next_search(
            ServerSearch::ReadPort,
            SearchEvent::Recorded(Some(default_port)),
            default_port,
        ) == ServerSearch::DeletePort,
        next_search(
            ServerSearch::ReadPort,
            SearchEvent::Recorded(None),
            default_port,
        ) == ServerSearch::NotFound,
        next_search(
            ServerSearch::AskRecorded(port),
            SearchEvent::Answered(true),
            default_port,
        ) == ServerSearch::Found(port),
        next_search(
            ServerSearch::AskRecorded(port),
            SearchEvent::Answered(false),
            default_port,
        ) == ServerSearch::DeletePort,
        next_search(
            ServerSearch::DeletePort,
            SearchEvent::Deleted,
            default_port,
        ) == ServerSearch::NotFound,
{
}

/// An event that cannot be what came of a step changes nothing, and nothing follows
/// once the search has ended.
pub proof fn law_stray_events_change_nothing(
    search: ServerSearch,
    event: SearchEvent,
    default_port: u16,
)
    requires
        search is AskDefault || search is AskRecorded ==> !(event is Answered),
        search is ReadPort ==> !(event is Recorded),
        search is DeletePort ==> !(event is Deleted),
    ensures
        next_search(search, event, default_port) == search,
{
}

/// The address of a server is on this machine and ends with its port, so that servers
/// on different ports have different addresses.
pub proof fn law_address_tells_the_port(port: u16, other: u16)
    ensures
        "http://127.0.0.1:"@.is_prefix_of(server_address(port)),
        server_address(port).skip("http://127.0.0.1:"@.len() as int) == decimal(port as nat),
        server_address(port) == server_address(other) ==> port == other,
        decimal(port as nat) == decimal(other as nat) ==> port == other,
{
    let front = "http://127.0.0.1:"@;
    let a = server_address(port);
    assert(front =~= a.subrange(0, front.len() as int));
    assert(a.skip(front.len() as int) =~= decimal(port as nat));
    assert(server_address(other).skip(front.len() as int) =~= decimal(other as nat));
    crate::text::law_decimal_reads_back(port as u32);
    crate::text::law_decimal_reads_back(other as u32);
}

/// The title of a window is made of the name of the program and the last name of the
/// path, or the whole path where that has none.
pub proof fn law_title_names_the_workspace(path: Seq<u8>)
    ensures
        crate::path::file_name(path) matches Some(name) ==> workspace_title(path) == "mdlive - "@
            + lossy_text(name),
        crate::path::file_name(path) is None ==> workspace_title(path) == "mdlive - "@ + lossy_text(
            path,
        ),
{
}

} // verus!
