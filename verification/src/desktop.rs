//! What the desktop program does about its windows and the session.

use vstd::prelude::*;

use crate::json::text_member_or_empty;
#[allow(unused_imports)]
use crate::json::{member_or_empty, text_members};
use crate::path::{path_join, path_parent};
#[allow(unused_imports)]
use crate::order::views;
use crate::state::AppConfig;
use crate::table::Table;
use crate::text::{from_utf8_lossy, same_text, text_after};
#[allow(unused_imports)]
use crate::text::lossy_text;

verus! {

/// Which workspace each window shows: paths by the labels of the windows.
pub struct WindowPaths {
    pub paths: Table<String>,
}

impl View for WindowPaths {
    type V = Map<Seq<char>, Seq<char>>;

    open spec fn view(&self) -> Map<Seq<char>, Seq<char>> {
        self.paths@
    }
}

impl WindowPaths {
    pub open spec fn wf(&self) -> bool {
        self.paths.wf()
    }

    /// No window is open.
    pub fn new() -> (windows: Self)
        ensures
            windows.wf(),
            windows@ == Map::<Seq<char>, Seq<char>>::empty(),
    {
        WindowPaths { paths: Table::new() }
    }

    /// A window shows a path; its canonical form is kept where it has one.
    pub fn register_window_path(&mut self, label: &str, path: &[u8], canonical: Option<&[u8]>)
        requires
            old(self).wf(),
        ensures
            final(self).wf(),
            final(self)@ == old(self)@.insert(
                label@,
                lossy_text(crate::watcher::resolved(path@, canonical)),
            ),
    {
        let shown = match canonical {
            Some(canonical) => from_utf8_lossy(canonical),
            None => from_utf8_lossy(path),
        };
        self.paths.insert(label.to_owned(), shown);
    }

    /// A window is gone.
    pub fn unregister_window_path(&mut self, label: &str)
        requires
            old(self).wf(),
        ensures
            final(self).wf(),
            final(self)@ == old(self)@.remove(label@),
    {
        self.paths.remove(label);
    }

    /// The paths that the windows show, in the order in which they are held.
    pub open spec fn shown(&self) -> Seq<Seq<char>> {
        self.paths.keys().map_values(|label: Seq<char>| self@[label])
    }

    /// The workspaces to open again next time: those that the windows show, and
    /// the one of the server, which its own window can switch without
    /// registering.
    pub fn session_workspaces(&self, server: Option<String>) -> (workspaces: Vec<String>)
        requires
            self.wf(),
        ensures
            views(workspaces@) == session(self.shown(), crate::state::text_view(server)),
    {
        let mut workspaces: Vec<String> = Vec::new();
        let n: usize = self.paths.len();
        for i in 0..n
            invariant
                self.wf(),
                n == self.paths.keys().len(),
                workspaces@.len() == i,
                forall|j: int| 0 <= j < i ==> (#[trigger] workspaces@[j])@ == self.shown()[j],
        {
            workspaces.push(self.paths.value_at(i).clone());
        }
        assert(views(workspaces@) =~= self.shown());
        match server {
            Some(base_dir) => {
                proof {
                    reveal_strlit("");
                    assert(base_dir@.len() == 0 <==> base_dir@ =~= ""@);
                }
                let ghost held = workspaces@;
                if !same_text(base_dir.as_str(), "") && !holds(&workspaces, base_dir.as_str()) {
                    workspaces.push(base_dir);
                    assert(views(workspaces@) =~= views(held).push(base_dir@));
                }
            },
            None => {},
        }
        workspaces
    }
}

/// The workspaces of a session: what the windows show, then what the server has
/// open unless that is among them.
pub open spec fn session(shown: Seq<Seq<char>>, server: Option<Seq<char>>) -> Seq<Seq<char>> {
    match server {
        Some(base_dir) => if base_dir.len() > 0 && !shown.contains(base_dir) {
            shown.push(base_dir)
        } else {
            shown
        },
        None => shown,
    }
}

fn holds(texts: &Vec<String>, text: &str) -> (found: bool)
    ensures
        found == views(texts@).contains(text@),
{
    for i in 0..texts.len()
        invariant
            forall|j: int| 0 <= j < i ==> (#[trigger] texts@[j])@ != text@,
    {
        if same_text(texts[i].as_str(), text) {
            assert(views(texts@)[i as int] == text@);
            return true;
        }
    }
    assert(forall|j: int| 0 <= j < views(texts@).len() ==> views(texts@)[j] != text@);
    false
}

/// Which of a list of texts are kept: those that are marked.
pub open spec fn marked(texts: Seq<String>, marks: Seq<bool>, n: nat) -> Seq<Seq<char>>
    decreases n,
{
    if n == 0 {
        Seq::empty()
    } else {
        let before = marked(texts, marks, (n - 1) as nat);
        if n <= marks.len() && marks[n - 1] {
            before.push(texts[n - 1]@)
        } else {
            before
        }
    }
}

/// The workspaces that are opened at the start: those of the last session that
/// still exist; if there are none, the one that was opened last, if that
/// exists.
pub open spec fn restored(config: AppConfig, found: Seq<bool>, recent_exists: bool) -> Seq<Seq<char>> {
    let last = marked(config.last_workspaces@, found, config.last_workspaces@.len());
    if last.len() > 0 {
        last
    } else if config.recent@.len() > 0 && recent_exists {
        seq![config.recent@[0].path@]
    } else {
        last
    }
}

/// The workspaces that are opened at the start, given which of the workspaces
/// of the last session exist and whether the one that was opened last does.
pub fn restore_paths(config: &AppConfig, found: &Vec<bool>, recent_exists: bool) -> (paths: Vec<
    String,
>)
    ensures
        views(paths@) == restored(*config, found@, recent_exists),
{
    let mut paths: Vec<String> = Vec::new();
    assert(views(paths@) =~= Seq::<Seq<char>>::empty());
    for i in 0..config.last_workspaces.len()
        invariant
            views(paths@) == marked(config.last_workspaces@, found@, i as nat),
    {
        let ghost held = paths@;
        if i < found.len() && found[i] {
            paths.push(config.last_workspaces[i].clone());
            assert(views(paths@) =~= views(held).push(config.last_workspaces@[i as int]@));
        }
    }
    if paths.len() == 0 && config.recent.len() > 0 && recent_exists {
        paths.push(config.recent[0].path.clone());
        assert(views(paths@) =~= seq![config.recent@[0].path@]);
    }
    paths
}

impl AppConfig {
    /// Forgets which paths were opened.
    pub fn clear_recent(&mut self)
        ensures
            final(self).recent@.len() == 0,
            final(self).last_workspaces == old(self).last_workspaces,
            final(self).last_browse_dir == old(self).last_browse_dir,
    {
        self.recent = Vec::new();
    }

    /// Remembers where a path was chosen: the directory itself, or the one that
    /// the file lies in.
    pub fn remember_browse_dir(&mut self, path: &[u8], is_dir: bool)
        ensures
            final(self).last_browse_dir matches Some(dir) && dir@ == browse_dir(path@, is_dir),
            final(self).recent == old(self).recent,
            final(self).last_workspaces == old(self).last_workspaces,
    {
        let dir = if is_dir {
            from_utf8_lossy(path)
        } else {
            match path_parent(path) {
                Some(dir) => from_utf8_lossy(dir),
                None => "".to_owned(),
            }
        };
        self.last_browse_dir = Some(dir);
    }

    /// Remembers the workspaces of a session.
    pub fn remember_session(&mut self, workspaces: Vec<String>)
        ensures
            final(self).last_workspaces == workspaces,
            final(self).recent == old(self).recent,
            final(self).last_browse_dir == old(self).last_browse_dir,
    {
        self.last_workspaces = workspaces;
    }
}

/// The directory that a choice of a path was made in.
pub open spec fn browse_dir(path: Seq<u8>, is_dir: bool) -> Seq<char> {
    if is_dir {
        lossy_text(path)
    } else {
        match crate::path::parent(path) {
            Some(dir) => lossy_text(dir),
            None => ""@,
        }
    }
}

/// A path as it was typed, with a leading `~/` in place of the home directory.
pub open spec fn expanded(path: Seq<char>, home: Option<Seq<u8>>) -> Seq<u8> {
    match home {
        Some(home) => if "~/"@.is_prefix_of(path) {
            crate::path::join(home, vstd::utf8::encode_utf8(path.skip("~/"@.len() as int)))
        } else {
            vstd::utf8::encode_utf8(path)
        },
        None => vstd::utf8::encode_utf8(path),
    }
}

/// Puts the home directory in place of a leading `~/`.
pub fn expand_path(path: &str, home: Option<&[u8]>) -> (out: Vec<u8>)
    ensures
        out@ == expanded(path@, crate::menu::bytes_view(home)),
{
    match text_after(path, "~/") {
        Some(rest) => match home {
            Some(home) => path_join(home, rest.as_str().as_bytes()),
            None => vstd::slice::slice_to_vec(path.as_bytes()),
        },
        None => vstd::slice::slice_to_vec(path.as_bytes()),
    }
}

/// The answer to a request for a window.
pub struct WindowReply {
    pub error: Option<String>,
}

/// What is done about a request for a window.
pub enum WindowRequest {
    /// The request is answered at once.
    Answer(WindowReply),
    /// Whether there is anything at this path has to be found out.
    Look(Vec<u8>),
}

/// What is done about a request for a window on a path; an empty one counts as
/// none.
pub fn window_request(path: &str, home: Option<&[u8]>) -> (request: WindowRequest)
    ensures
        match request {
            WindowRequest::Answer(reply) => path@.len() == 0 && crate::state::text_view(reply.error)
                == Some("path required"@),
            WindowRequest::Look(target) => path@.len() > 0 && target@ == expanded(
                path@,
                crate::menu::bytes_view(home),
            ),
        },
{
    proof {
        reveal_strlit("");
        assert(path@.len() == 0 <==> path@ =~= ""@);
    }
    if same_text(path, "") {
        WindowRequest::Answer(WindowReply { error: Some("path required".to_owned()) })
    } else {
        WindowRequest::Look(expand_path(path, home))
    }
}

/// What is done about a request for a window, by the path that it names.
pub fn handle_window_new(body: &serde_json::Value, home: Option<&[u8]>) -> (request: WindowRequest)
    ensures
        ({
            let path = member_or_empty(text_members(*body), "path"@);
            match request {
                WindowRequest::Answer(reply) => path.len() == 0 && crate::state::text_view(
                    reply.error,
                ) == Some("path required"@),
                WindowRequest::Look(target) => path.len() > 0 && target@ == expanded(
                    path,
                    crate::menu::bytes_view(home),
                ),
            }
        }),
{
    let path = text_member_or_empty(body, "path");
    window_request(path.as_str(), home)
}

/// The answer to a request for a window once it is known whether the path
/// exists; where it does, whether it could be handed on, or why not.
pub fn window_reply(found: bool, handed_on: Result<(), String>) -> (reply: WindowReply)
    ensures
        crate::state::text_view(reply.error) == (if !found {
            Some("path not found"@)
        } else {
            match handed_on {
                Ok(_) => None,
                Err(error) => Some(error@),
            }
        }),
{
    if !found {
        return WindowReply { error: Some("path not found".to_owned()) };
    }
    match handed_on {
        Ok(_) => WindowReply { error: None },
        Err(error) => WindowReply { error: Some(error) },
    }
}

/// An address that the system asks the program to open.
pub struct OpenedUrl {
    pub scheme: String,
    /// The path that it stands for, if it does.
    pub path: Option<Vec<u8>>,
}

/// What happens to the program.
pub enum AppEvent {
    /// The last window was closed (no code), or the program is told to quit.
    ExitRequested(Option<i32>),
    WindowDestroyed(String),
    /// The program is chosen again.
    Reopen { has_visible_windows: bool },
    Opened(Vec<OpenedUrl>),
    Other,
}

/// What the program does about it.
pub enum AppAction {
    /// Keep running without a window.
    PreventExit,
    /// Write the session down and quit.
    PersistAndQuit,
    Unregister(String),
    OpenMainWindow,
    OpenPaths(Vec<Vec<u8>>),
    Nothing,
}

/// The paths among addresses of files.
pub open spec fn paths_among(urls: Seq<OpenedUrl>, n: nat) -> Seq<Seq<u8>>
    decreases n,
{
    if n == 0 {
        Seq::empty()
    } else {
        let before = paths_among(urls, (n - 1) as nat);
        let url = urls[n - 1];
        match url.path {
            Some(path) => if url.scheme@ == "file"@ {
                before.push(path@)
            } else {
                before
            },
            None => before,
        }
    }
}

fn opened_paths(urls: &Vec<OpenedUrl>) -> (paths: Vec<Vec<u8>>)
    ensures
        views(paths@) == paths_among(urls@, urls@.len()),
{
    let mut paths: Vec<Vec<u8>> = Vec::new();
    assert(views(paths@) =~= Seq::<Seq<u8>>::empty());
    for i in 0..urls.len()
        invariant
            views(paths@) == paths_among(urls@, i as nat),
    {
        let ghost held = paths@;
        let url = &urls[i];
        if same_text(url.scheme.as_str(), "file") {
            match &url.path {
                Some(path) => {
                    paths.push(vstd::slice::slice_to_vec(path.as_slice()));
                    assert(views(paths@) =~= views(held).push(path@));
                },
                None => {},
            }
        }
    }
    paths
}

/// Whether an event tells the program to quit.
pub open spec fn told_to_quit(event: AppEvent) -> bool {
    event matches AppEvent::ExitRequested(code) && code is Some
}

/// Whether the program is about to end.
pub struct AppState {
    pub quitting: bool,
}

impl AppState {
    /// The program does not end yet.
    pub fn new() -> (state: Self)
        ensures
            !state.quitting,
    {
        AppState { quitting: false }
    }

    /// What the program does about an event. While it quits, windows that go
    /// away stay part of the session.
    pub fn handle_event(&mut self, event: AppEvent) -> (action: AppAction)
        ensures
            final(self).quitting == (old(self).quitting || told_to_quit(event)),
            match event {
                AppEvent::ExitRequested(code) => if code is None {
                    action is PreventExit
                } else {
                    action is PersistAndQuit
                },
                AppEvent::WindowDestroyed(label) => if old(self).quitting {
                    action is Nothing
                } else {
                    action == AppAction::Unregister(label)
                },
                AppEvent::Reopen { has_visible_windows } => if has_visible_windows {
                    action is Nothing
                } else {
                    action is OpenMainWindow
                },
                AppEvent::Opened(urls) => action matches AppAction::OpenPaths(paths) && views(
                    paths@,
                ) == paths_among(urls@, urls@.len()),
                AppEvent::Other => action is Nothing,
            },
    {
        match event {
            AppEvent::ExitRequested(code) => {
                if code.is_none() {
                    AppAction::PreventExit
                } else {
                    self.quitting = true;
                    AppAction::PersistAndQuit
                }
            },
            AppEvent::WindowDestroyed(label) => {
                if self.quitting {
                    AppAction::Nothing
                } else {
                    AppAction::Unregister(label)
                }
            },
            AppEvent::Reopen { has_visible_windows } => {
                if has_visible_windows {
                    AppAction::Nothing
                } else {
                    AppAction::OpenMainWindow
                }
            },
            AppEvent::Opened(urls) => AppAction::OpenPaths(opened_paths(&urls)),
            AppEvent::Other => AppAction::Nothing,
        }
    }
}

proof fn lemma_shortened(home: Seq<char>, rest: Seq<char>)
    requires
        home.len() > 0,
    ensures
        ({
            let short = crate::menu::shortened(home.push('/') + rest, home);
            &&& "~/"@.is_prefix_of(short)
            &&& short.skip("~/"@.len() as int) == rest
        }),
{
    reveal_strlit("~");
    reveal_strlit("~/");
    let path = home.push('/') + rest;
    assert(home =~= path.subrange(0, home.len() as int));
    let short = crate::menu::shortened(path, home);
    assert(path.skip(home.len() as int) =~= seq!['/'] + rest);
    assert(short =~= "~/"@ + rest);
    assert("~/"@ =~= short.subrange(0, 2));
    assert(short.skip(2) =~= rest);
}

proof fn lemma_joined_bytes(home: Seq<char>, rest: Seq<char>)
    requires
        home.len() > 0,
        home.last() != '/',
        rest.len() == 0 || rest[0] != '/',
    ensures
        crate::path::join(vstd::utf8::encode_utf8(home), vstd::utf8::encode_utf8(rest))
            == vstd::utf8::encode_utf8(home.push('/') + rest),
{
    let slash = seq!['/'];
    let front = vstd::utf8::encode_utf8(home);
    let back = vstd::utf8::encode_utf8(rest);
    assert(home.push('/') + rest =~= home + (slash + rest));
    crate::text::lemma_encode_concat(home, slash + rest);
    crate::text::lemma_encode_concat(slash, rest);
    crate::text::lemma_encoded_ends(home);
    assert(back.len() > 0 ==> back[0] != crate::path::SLASH) by {
        if rest.len() > 0 {
            crate::text::lemma_encoded_ends(rest);
        }
    }
    assert(vstd::utf8::encode_utf8(slash) =~= seq![crate::path::SLASH]) by {
        assert(vstd::utf8::is_ascii_chars(slash));
        vstd::utf8::is_ascii_chars_encode_utf8(slash);
        assert(slash[0] as u8 == vstd::utf8::encode_utf8(slash)[0]);
    }
    assert(front.push(crate::path::SLASH) + back =~= front + (seq![crate::path::SLASH] + back));
}

/// A path below the home directory that is shown with `~` leads to the same
/// path when it is typed that way.
pub proof fn law_shortened_path_expands_back(home: Seq<char>, rest: Seq<char>)
    requires
        home.len() > 0,
        home.last() != '/',
        rest.len() == 0 || rest[0] != '/',
    ensures
        expanded(
            crate::menu::shortened(home.push('/') + rest, home),
            Some(vstd::utf8::encode_utf8(home)),
        ) == vstd::utf8::encode_utf8(home.push('/') + rest),
{
    lemma_shortened(home, rest);
    lemma_joined_bytes(home, rest);
}

/// The session remembers what the windows show and what the server has open, and
/// nothing else.
pub proof fn law_session_is_windows_and_server(
    windows: WindowPaths,
    server: Option<Seq<char>>,
    workspace: Seq<char>,
)
    requires
        windows.wf(),
    ensures
        session(windows.shown(), server).contains(workspace) <==> windows@.contains_value(workspace)
            || server == Some(workspace) && workspace.len() > 0,
{
    windows.paths.lemma_keys();
    let keys = windows.paths.keys();
    let shown = windows.shown();
    let all = session(shown, server);
    assert(shown.contains(workspace) <==> windows@.contains_value(workspace)) by {
        if shown.contains(workspace) {
            let i = shown.index_of(workspace);
            assert(keys.to_set().contains(keys[i]));
            assert(windows@.contains_key(keys[i]) && windows@[keys[i]] == workspace);
        }
        if windows@.contains_value(workspace) {
            let label = choose|label: Seq<char>| #[trigger]
                windows@.contains_key(label) && windows@[label] == workspace;
            assert(keys.to_set().contains(label));
            let i = keys.index_of(label);
            assert(shown[i] == workspace);
        }
    }
    if all != shown {
        assert(all[all.len() - 1] == server->0);
        if shown.contains(workspace) {
            let i = shown.index_of(workspace);
            assert(all[i] == workspace);
        }
        if all.contains(workspace) {
            let i = all.index_of(workspace);
            if i < shown.len() {
                assert(shown[i] == workspace);
            }
        }
    }
}

proof fn lemma_marked(texts: Seq<String>, marks: Seq<bool>, n: nat, text: Seq<char>)
    requires
        n <= texts.len(),
        marked(texts, marks, n).contains(text),
    ensures
        exists|i: int|
            0 <= i < n && i < marks.len() && marks[i] && (#[trigger] texts[i])@ == text,
    decreases n,
{
    if n > 0 {
        let before = marked(texts, marks, (n - 1) as nat);
        if before.contains(text) {
            lemma_marked(texts, marks, (n - 1) as nat, text);
        } else {
            let all = marked(texts, marks, n);
            let i = all.index_of(text);
            if i < before.len() {
                assert(before[i] == text);
            }
            assert(texts[n - 1]@ == text);
        }
    }
}

/// Only workspaces that exist are opened at the start: those of the last
/// session, or the one that was opened last.
pub proof fn law_restored_workspaces_exist(
    config: AppConfig,
    found: Seq<bool>,
    recent_exists: bool,
    path: Seq<char>,
)
    requires
        restored(config, found, recent_exists).contains(path),
    ensures
        (exists|i: int|
            0 <= i < config.last_workspaces@.len() && i < found.len() && found[i] && (#[trigger]
            config.last_workspaces@[i])@ == path) || (config.recent@.len() > 0 && recent_exists
            && path == config.recent@[0].path@),
{
    let last = marked(config.last_workspaces@, found, config.last_workspaces@.len());
    if last.contains(path) {
        lemma_marked(config.last_workspaces@, found, config.last_workspaces@.len(), path);
    }
}

/// The session lists what the windows show in their order, and then at most the
/// workspace of the server.
pub proof fn law_session_keeps_the_order(shown: Seq<Seq<char>>, server: Option<Seq<char>>)
    ensures
        shown.is_prefix_of(session(shown, server)),
        session(shown, server).len() <= shown.len() + 1,
        server is None ==> session(shown, server) == shown,
        server matches Some(base_dir) ==> base_dir.len() > 0 && !shown.contains(base_dir)
            ==> session(shown, server).last() == base_dir && session(shown, server).len()
            == shown.len() + 1,
        server matches Some(base_dir) ==> base_dir.len() == 0 || shown.contains(base_dir)
            ==> session(shown, server) == shown,
{
    let all = session(shown, server);
    assert(shown =~= all.subrange(0, shown.len() as int));
}

proof fn lemma_marked_is_kept(texts: Seq<String>, marks: Seq<bool>, n: nat, i: int)
    requires
        0 <= i < n <= texts.len(),
        i < marks.len(),
        marks[i],
    ensures
        marked(texts, marks, n).contains(texts[i]@),
        marked(texts, marks, n).len() > 0,
    decreases n,
{
    let before = marked(texts, marks, (n - 1) as nat);
    let all = marked(texts, marks, n);
    if i == n - 1 {
        assert(all[before.len() as int] == texts[i]@);
    } else {
        lemma_marked_is_kept(texts, marks, (n - 1) as nat, i);
        let k = before.index_of(texts[i]@);
        assert(all[k] == texts[i]@);
    }
}

proof fn lemma_all_marked(texts: Seq<String>, marks: Seq<bool>, n: nat)
    requires
        n <= texts.len(),
        n <= marks.len(),
        forall|i: int| 0 <= i < n ==> marks[i],
    ensures
        marked(texts, marks, n) == views(texts).take(n as int),
    decreases n,
{
    if n > 0 {
        lemma_all_marked(texts, marks, (n - 1) as nat);
        assert(views(texts).take(n as int) =~= views(texts).take(n - 1).push(texts[n - 1]@));
    } else {
        assert(marked(texts, marks, n) =~= views(texts).take(0));
    }
}

proof fn lemma_none_marked(texts: Seq<String>, marks: Seq<bool>, n: nat)
    requires
        n <= texts.len(),
        forall|i: int| 0 <= i < n && i < marks.len() ==> !marks[i],
    ensures
        marked(texts, marks, n).len() == 0,
    decreases n,
{
    if n > 0 {
        lemma_none_marked(texts, marks, (n - 1) as nat);
    }
}

/// Every workspace of the last session that still exists is opened again, and all of
/// them in their order if all exist. Only if none does, the one that was opened last
/// is opened, if that exists.
pub proof fn law_existing_workspaces_are_restored(
    config: AppConfig,
    found: Seq<bool>,
    recent_exists: bool,
    i: int,
)
    ensures
        0 <= i < found.len() && i < config.last_workspaces@.len() && found[i] ==> restored(
            config,
            found,
            recent_exists,
        ).contains(config.last_workspaces@[i]@) && restored(config, found, recent_exists) == marked(
            config.last_workspaces@,
            found,
            config.last_workspaces@.len(),
        ),
        0 < config.last_workspaces@.len() <= found.len() && (forall|j: int|
            0 <= j < found.len() ==> found[j]) ==> restored(config, found, recent_exists) == views(
            config.last_workspaces@,
        ),
        (forall|j: int|
            0 <= j < found.len() && j < config.last_workspaces@.len() ==> !found[j]) ==> restored(
            config,
            found,
            recent_exists,
        ) == (if config.recent@.len() > 0 && recent_exists {
            seq![config.recent@[0].path@]
        } else {
            Seq::empty()
        }),
{
    let texts = config.last_workspaces@;
    let n = texts.len();
    if 0 <= i < found.len() && i < n && found[i] {
        lemma_marked_is_kept(texts, found, n, i);
    }
    if 0 < n <= found.len() && (forall|j: int| 0 <= j < found.len() ==> found[j]) {
        lemma_all_marked(texts, found, n);
        assert(views(texts).take(n as int) =~= views(texts));
    }
    if forall|j: int| 0 <= j < found.len() && j < n ==> !found[j] {
        lemma_none_marked(texts, found, n);
        assert(marked(texts, found, n) =~= Seq::<Seq<char>>::empty());
    }
}

/// Of a list the texts that are marked are kept, one after another.
pub proof fn law_marked_texts_are_kept_in_order(texts: Seq<String>, marks: Seq<bool>, n: nat)
    requires
        n < texts.len(),
    ensures
        marked(texts, marks, 0) == Seq::<Seq<char>>::empty(),
        n < marks.len() && marks[n as int] ==> marked(texts, marks, n + 1) == marked(
            texts,
            marks,
            n,
        ).push(texts[n as int]@),
        n >= marks.len() || !marks[n as int] ==> marked(texts, marks, n + 1) == marked(
            texts,
            marks,
            n,
        ),
{
}

/// The home directory stands in for a leading `~/`; any other path, and every path
/// where the home directory is not known, is taken as it was typed.
pub proof fn law_only_the_home_is_expanded(path: Seq<char>, rest: Seq<char>, home: Seq<u8>)
    ensures
        expanded(path, None) == vstd::utf8::encode_utf8(path),
        path.len() < 2 || path[0] != '~' || path[1] != '/' ==> expanded(path, Some(home))
            == vstd::utf8::encode_utf8(path),
        expanded(seq!['~', '/'] + rest, Some(home)) == crate::path::join(
            home,
            vstd::utf8::encode_utf8(rest),
        ),
{
    reveal_strlit("~/");
    let t = "~/"@;
    if t.is_prefix_of(path) {
        assert(path.subrange(0, 2)[0] == t[0] && path.subrange(0, 2)[1] == t[1]);
    }
    let typed = seq!['~', '/'] + rest;
    assert(t =~= typed.subrange(0, 2));
    assert(typed.skip(2) =~= rest);
}

/// Where a path was chosen is the directory itself, or the directory that the file
/// lies in: the start of its path that has all components but the last.
pub proof fn law_browsing_starts_where_a_path_was_chosen(path: Seq<u8>)
    ensures
        browse_dir(path, true) == lossy_text(path),
        crate::path::parent(path) matches Some(dir) ==> browse_dir(path, false) == lossy_text(dir),
        crate::path::parent(path) is None ==> browse_dir(path, false).len() == 0,
        crate::path::file_name(path) is Some ==> exists|dir: Seq<u8>|
            browse_dir(path, false) == #[trigger] lossy_text(dir) && dir.is_prefix_of(path)
                && crate::path::components(dir) == crate::path::components(path).drop_last(),
{
    reveal_strlit("");
    crate::path::law_parent_drops_the_last_component(path);
    if crate::path::file_name(path) is Some {
        crate::path::law_key_in_the_parent_is_the_file_name(path);
        let dir = crate::path::parent(path)->0;
        assert(browse_dir(path, false) == lossy_text(dir));
    }
}

/// Of the addresses that the system hands over, those of files are opened, one after
/// another; an address with another scheme, or one that stands for no path, is not.
pub proof fn law_addresses_of_files_are_opened(urls: Seq<OpenedUrl>, n: nat)
    requires
        n < urls.len(),
    ensures
        paths_among(urls, 0) == Seq::<Seq<u8>>::empty(),
        ({
            let url = urls[n as int];
            let opened = paths_among(urls, n + 1);
            &&& url.scheme@ == "file"@ && url.path is Some ==> opened == paths_among(urls, n).push(
                url.path->0@,
            )
            &&& url.scheme@ != "file"@ || url.path is None ==> opened == paths_among(urls, n)
        }),
{
}

/// The program is told to quit by a request with a code, and by nothing else.
pub proof fn law_a_code_tells_to_quit(event: AppEvent, code: i32)
    ensures
        told_to_quit(AppEvent::ExitRequested(Some(code))),
        !told_to_quit(AppEvent::ExitRequested(None)),
        !(event is ExitRequested) ==> !told_to_quit(event),
{
}

/// Every window counts once for what is shown, with the path that is held for it.
pub proof fn law_every_window_shows_its_path(windows: WindowPaths)
    requires
        windows.wf(),
    ensures
        windows@ == windows.paths@,
        windows.shown().len() == windows@.dom().len(),
{
    windows.paths.lemma_keys();
}

} // verus!
