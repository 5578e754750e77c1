//! The workspace that is served: its files, and the messages sent about it.

use vstd::prelude::*;

use crate::order::{sort, text_at_most, Sortable};
#[allow(unused_imports)]
use crate::order::{lemma_text_order_total, sorted, text_order, views};
use crate::path::{path_join, path_key_below, same_bytes};
use crate::table::Table;
#[allow(unused_imports)]
use crate::text::fails_with;
use crate::text::{from_utf8_lossy, html_escape};
use crate::time::FileTime;
use crate::util::{is_json_file, is_markdown_file};

verus! {

/// A message from the server to the pages that show a workspace.
#[derive(Clone, Debug, PartialEq)]
pub enum ServerMessage {
    /// Something that is shown has changed.
    Reload,
    /// The answer to a ping.
    Pong,
    /// A file has moved.
    FileMoved { from: String, to: String },
    /// Another workspace, or a file in it, is served from now on.
    WorkspaceChanged { base_dir: String, file: Option<String> },
}

/// The view of a [`ServerMessage`].
pub enum MessageView {
    Reload,
    Pong,
    FileMoved { from: Seq<char>, to: Seq<char> },
    WorkspaceChanged { base_dir: Seq<char>, file: Option<Seq<char>> },
}

/// The view of a text that may be absent.
pub open spec fn text_view(text: Option<String>) -> Option<Seq<char>> {
    match text {
        Some(t) => Some(t@),
        None => None,
    }
}

impl View for ServerMessage {
    type V = MessageView;

    open spec fn view(&self) -> MessageView {
        match *self {
            ServerMessage::Reload => MessageView::Reload,
            ServerMessage::Pong => MessageView::Pong,
            ServerMessage::FileMoved { from, to } => MessageView::FileMoved {
                from: from@,
                to: to@,
            },
            ServerMessage::WorkspaceChanged { base_dir, file } => MessageView::WorkspaceChanged {
                base_dir: base_dir@,
                file: text_view(file),
            },
        }
    }
}

/// A file of the workspace, with the HTML that it is shown as.
pub struct TrackedFile {
    pub path: Vec<u8>,
    pub last_modified: FileTime,
    pub created: FileTime,
    pub html: String,
}

/// The view of a [`TrackedFile`].
pub struct TrackedView {
    pub path: Seq<u8>,
    pub last_modified: FileTime,
    pub created: FileTime,
    pub html: Seq<char>,
}

impl View for TrackedFile {
    type V = TrackedView;

    open spec fn view(&self) -> TrackedView {
        TrackedView {
            path: self.path@,
            last_modified: self.last_modified,
            created: self.created,
            html: self.html@,
        }
    }
}

/// What the Markdown parser is asked for.
pub struct MarkdownOptions {
    /// The constructs of GitHub flavored Markdown.
    pub gfm: bool,
    /// HTML in the text stays as it is.
    pub allow_dangerous_html: bool,
    /// Metadata at the start of the text is left out.
    pub frontmatter: bool,
}

/// What the Markdown parser is asked for.
pub fn markdown_options() -> (options: MarkdownOptions)
    ensures
        options.gfm,
        options.allow_dangerous_html,
        options.frontmatter,
{
    MarkdownOptions { gfm: true, allow_dangerous_html: true, frontmatter: true }
}

/// How turning a Markdown text into HTML ended. The parser is run outside the
/// library, where a panic of it can be caught.
pub enum Rendering {
    Html(String),
    /// The parser reported an error.
    Rejected,
    /// The parser panicked.
    Panicked,
}

/// The HTML that stands for a rendering.
pub open spec fn rendering_html(rendering: Rendering) -> Seq<char> {
    match rendering {
        Rendering::Html(html) => html@,
        Rendering::Rejected => "Error parsing markdown"@,
        Rendering::Panicked => {
            "<p><em>Could not render this file (markdown parser error)</em></p>"@
        },
    }
}

/// The HTML of any other text: the text itself, escaped, as a block of code.
pub open spec fn text_html(path: Seq<u8>, content: Seq<char>) -> Seq<char> {
    "<pre><code class=\"language-"@ + (if crate::util::is_json(path) {
        "json"@
    } else {
        "plaintext"@
    }) + "\">"@ + crate::text::html_escaped(content) + "</code></pre>"@
}

/// The HTML of a file: what its rendering gave if it is a Markdown file, and
/// else its text.
pub open spec fn file_html(path: Seq<u8>, content: Seq<char>, rendering: Rendering) -> Seq<char> {
    if crate::util::is_markdown(path) {
        rendering_html(rendering)
    } else {
        text_html(path, content)
    }
}

/// What a file holds.
pub struct FileContent {
    pub text: String,
    /// What rendering the text gave. It is looked at only for a Markdown file.
    pub rendering: Rendering,
}

/// The HTML of a file, by its path and content.
pub open spec fn content_html(path: Seq<u8>, content: FileContent) -> Seq<char> {
    file_html(path, content.text@, content.rendering)
}

impl FileContent {
    /// The HTML of a file with this content.
    pub fn into_html(self, path: &[u8]) -> (html: String)
        ensures
            html@ == content_html(path@, self),
    {
        MarkdownState::render_file_to_html(path, self.text.as_str(), self.rendering)
    }
}

/// What was read of a file: its times and its content.
pub struct LoadedFile {
    pub modified: FileTime,
    pub created: Option<FileTime>,
    pub content: FileContent,
}

impl LoadedFile {
    /// The file as it is tracked: shown as what it is by the path that it was
    /// read from, and kept with another path.
    pub open spec fn as_tracked(self, read_path: Seq<u8>, path: Seq<u8>) -> TrackedView {
        TrackedView {
            path,
            last_modified: self.modified,
            created: match self.created {
                Some(created) => created,
                None => self.modified,
            },
            html: content_html(read_path, self.content),
        }
    }

    fn track(self, read_path: &[u8], path: Vec<u8>) -> (file: TrackedFile)
        ensures
            file@ == self.as_tracked(read_path@, path@),
    {
        let created = match self.created {
            Some(created) => created,
            None => self.modified,
        };
        let html = self.content.into_html(read_path);
        TrackedFile { path, last_modified: self.modified, created, html }
    }
}

/// A file to be tracked: where it was found, its canonical path if that could
/// be had, and what reading it gave.
pub struct FoundFile {
    pub path: Vec<u8>,
    pub canonical: Option<Vec<u8>>,
    pub read: Result<LoadedFile, String>,
}

impl FoundFile {
    /// The canonical path, or the path itself where there is none.
    pub open spec fn resolved(self) -> Seq<u8> {
        match self.canonical {
            Some(canonical) => canonical@,
            None => self.path@,
        }
    }
}

/// The files that are tracked once the first `n` found ones are, each under
/// its path below the base directory. A later file takes the place of an
/// earlier one with the same key.
pub open spec fn tracked_from(base_dir: Seq<u8>, files: Seq<FoundFile>, n: nat) -> Map<
    Seq<char>,
    TrackedView,
>
    decreases n,
{
    if n == 0 || n > files.len() {
        Map::empty()
    } else {
        let before = tracked_from(base_dir, files, (n - 1) as nat);
        let file = files[n - 1];
        match file.read {
            Ok(loaded) => before.insert(
                crate::path::key_below(base_dir, file.resolved()),
                loaded.as_tracked(file.path@, file.resolved()),
            ),
            Err(_) => before,
        }
    }
}

/// The number of files before the first that could not be read.
pub open spec fn read_before_error(files: Seq<FoundFile>, n: nat) -> nat
    decreases files.len() - n,
{
    if n >= files.len() || files[n as int].read is Err {
        n
    } else {
        read_before_error(files, n + 1)
    }
}

proof fn lemma_read_before_error(files: Seq<FoundFile>, n: nat)
    requires
        n <= files.len(),
    ensures
        n <= read_before_error(files, n) <= files.len(),
    decreases files.len() - n,
{
    if n < files.len() && files[n as int].read is Ok {
        lemma_read_before_error(files, n + 1);
    }
}

/// A workspace that was opened before.
#[derive(Clone, Debug)]
pub struct RecentEntry {
    pub path: String,
    pub mode: String,
    pub last_opened: u64,
}

/// What is remembered from one run to the next.
#[derive(Clone, Debug)]
pub struct AppConfig {
    pub recent: Vec<RecentEntry>,
    pub last_workspaces: Vec<String>,
    pub last_browse_dir: Option<String>,
}

/// A file as the sidebar lists it.
pub struct FileInfo {
    pub name: String,
    pub modified: u64,
    pub created: u64,
}

/// The view of a [`FileInfo`].
pub struct FileInfoView {
    pub name: Seq<char>,
    pub modified: u64,
    pub created: u64,
}

impl View for FileInfo {
    type V = FileInfoView;

    open spec fn view(&self) -> FileInfoView {
        FileInfoView { name: self.name@, modified: self.modified, created: self.created }
    }
}

/// The times of a file as they stand on disk now; a time is absent where it
/// could not be had.
#[derive(Clone, Copy)]
pub struct DiskTimes {
    pub modified: Option<FileTime>,
    pub created: Option<FileTime>,
}

/// The times found for a path: those of the first entry for it, or none.
pub open spec fn times_of(times: Seq<(Vec<u8>, DiskTimes)>, path: Seq<u8>) -> DiskTimes
    decreases times.len(),
{
    if times.len() == 0 {
        DiskTimes { modified: None, created: None }
    } else if times[0].0@ == path {
        times[0].1
    } else {
        times_of(times.skip(1), path)
    }
}

/// What the sidebar lists for a tracked file: the times on disk, or those
/// that it is tracked with where there are none.
pub open spec fn info_of(
    name: Seq<char>,
    file: TrackedView,
    times: Seq<(Vec<u8>, DiskTimes)>,
) -> FileInfoView {
    let now = times_of(times, file.path);
    FileInfoView {
        name,
        modified: match now.modified {
            Some(t) => t.epoch_secs(),
            None => file.last_modified.epoch_secs(),
        },
        created: match now.created {
            Some(t) => t.epoch_secs(),
            None => file.created.epoch_secs(),
        },
    }
}

/// What stands on disk for a tracked file: when it was last modified, and its
/// content where that was needed.
pub struct DiskVersion {
    pub modified: FileTime,
    pub content: Result<FileContent, String>,
}

/// The workspace to be added to the recent ones.
pub struct Opened {
    pub path: String,
    pub mode: String,
}

/// What follows from a change of workspace.
pub struct Switched {
    /// The directory to be made for the history of files.
    pub history_dir: Vec<u8>,
    /// The workspace to be remembered, where there is a configuration.
    pub opened: Option<Opened>,
    /// What the pages are told.
    pub message: ServerMessage,
}

/// The state of the server.
pub struct MarkdownState {
    pub base_dir: Vec<u8>,
    pub tracked_files: Table<TrackedFile>,
    pub is_directory_mode: bool,
    pub mdlive_dir: Option<Vec<u8>>,
    pub daemon_mode: bool,
    pub config: Option<AppConfig>,
}

/// The view of a [`MarkdownState`].
pub struct StateView {
    pub base_dir: Seq<u8>,
    pub files: Map<Seq<char>, TrackedView>,
    pub is_directory_mode: bool,
    pub mdlive_dir: Option<Seq<u8>>,
    pub daemon_mode: bool,
    pub config: Option<AppConfig>,
}

impl View for MarkdownState {
    type V = StateView;

    open spec fn view(&self) -> StateView {
        StateView {
            base_dir: self.base_dir@,
            files: self.tracked_files@,
            is_directory_mode: self.is_directory_mode,
            mdlive_dir: match self.mdlive_dir {
                Some(dir) => Some(dir@),
                None => None,
            },
            daemon_mode: self.daemon_mode,
            config: self.config,
        }
    }
}

/// The directory in which the program keeps its own files for a workspace.
pub open spec fn own_dir(base_dir: Seq<u8>) -> Seq<u8> {
    crate::path::join(base_dir, crate::util::mdlive_name())
}

/// The directory for the history of files of a workspace.
pub open spec fn history_dir(base_dir: Seq<u8>) -> Seq<u8> {
    crate::path::join(own_dir(base_dir), vstd::utf8::encode_utf8("history"@))
}

/// The directory for the history of files of a workspace.
pub fn history_directory(base_dir: &[u8]) -> (dir: Vec<u8>)
    ensures
        dir@ == history_dir(base_dir@),
{
    let own = path_join(base_dir, ".mdlive".as_bytes());
    path_join(own.as_slice(), "history".as_bytes())
}

/// The text with which a directory or file is added to the recent ones.
pub open spec fn recent_path(
    base_dir: Seq<u8>,
    dir_mode: bool,
    original_path: Option<Seq<char>>,
) -> Seq<char> {
    match original_path {
        Some(path) if !dir_mode => path,
        _ => crate::text::lossy_text(base_dir),
    }
}

/// The state in which a tracked file has the given content, if that is newer
/// than what it has.
pub open spec fn refreshed(
    state: StateView,
    name: Seq<char>,
    modified: FileTime,
    content: FileContent,
) -> StateView {
    let file = state.files[name];
    if state.files.contains_key(name) && modified.nanoseconds()
        > file.last_modified.nanoseconds() {
        StateView {
            files: state.files.insert(
                name,
                TrackedView {
                    html: content_html(file.path, content),
                    last_modified: modified,
                    ..file
                },
            ),
            ..state
        }
    } else {
        state
    }
}

/// The state in which a file is tracked, unless its key is taken.
pub open spec fn with_file(state: StateView, path: Seq<u8>, file: LoadedFile) -> StateView {
    let key = crate::path::key_below(state.base_dir, path);
    if state.files.contains_key(key) {
        state
    } else {
        StateView { files: state.files.insert(key, file.as_tracked(path, path)), ..state }
    }
}

impl MarkdownState {
    /// No key is tracked twice.
    pub open spec fn wf(&self) -> bool {
        self.tracked_files.wf()
    }

    /// Tracks the found files in order, up to the first that could not be read.
    fn track_all(base_dir: &[u8], files: Vec<FoundFile>) -> (out: (
        Table<TrackedFile>,
        Option<String>,
    ))
        ensures
            out.0.wf(),
            ({
                let n = read_before_error(files@, 0);
                &&& out.0@ == tracked_from(base_dir@, files@, n)
                &&& n <= files@.len()
                &&& n == files@.len() ==> out.1 is None
                &&& n < files@.len() ==> files@[n as int].read is Err && text_view(out.1) == Some(
                    files@[n as int].read->Err_0@,
                )
            }),
    {
        let mut table: Table<TrackedFile> = Table::new();
        let ghost all = files@;
        proof {
            lemma_read_before_error(all, 0);
        }
        let mut error: Option<String> = None;
        for file in it: files
            invariant
                all == it.seq(),
                table.wf(),
                error is None ==> read_before_error(all, 0) == read_before_error(
                    all,
                    it.index() as nat,
                ) && table@ == tracked_from(base_dir@, all, it.index() as nat),
                error matches Some(e) ==> ({
                    let n = read_before_error(all, 0);
                    &&& n < all.len()
                    &&& table@ == tracked_from(base_dir@, all, n)
                    &&& all[n as int].read is Err
                    &&& e@ == all[n as int].read->Err_0@
                }),
        {
            if error.is_none() {
                match file.read {
                    Ok(loaded) => {
                        let path = match file.canonical {
                            Some(canonical) => canonical,
                            None => vstd::slice::slice_to_vec(file.path.as_slice()),
                        };
                        let key = path_key_below(base_dir, path.as_slice());
                        table.insert(key, loaded.track(file.path.as_slice(), path));
                    },
                    Err(e) => {
                        error = Some(e);
                    },
                }
            }
        }
        (table, error)
    }

    /// The HTML of a file: what its rendering gave if it is a Markdown file,
    /// and else its text.
    pub fn render_file_to_html(path: &[u8], content: &str, rendering: Rendering) -> (html: String)
        ensures
            html@ == file_html(path@, content@, rendering),
    {
        if is_markdown_file(path) {
            Self::markdown_to_html(rendering)
        } else {
            Self::text_to_html(path, content)
        }
    }

    /// The HTML that a rendering gave, or a note that it failed.
    pub fn markdown_to_html(rendering: Rendering) -> (html: String)
        ensures
            html@ == rendering_html(rendering),
    {
        match rendering {
            Rendering::Html(html) => html,
            Rendering::Rejected => "Error parsing markdown".to_owned(),
            Rendering::Panicked => {
                "<p><em>Could not render this file (markdown parser error)</em></p>".to_owned()
            },
        }
    }

    /// The HTML of any other text: the text itself, escaped, as a block of
    /// code.
    pub fn text_to_html(path: &[u8], content: &str) -> (html: String)
        ensures
            html@ == text_html(path@, content@),
    {
        let lang = if is_json_file(path) {
            "json"
        } else {
            "plaintext"
        };
        let escaped = html_escape(content);
        let mut html = "<pre><code class=\"language-".to_owned();
        html.append(lang);
        html.append("\">");
        html.append(escaped.as_str());
        html.append("</code></pre>");
        html
    }

    /// The state of a server for one workspace, or the error of the first file
    /// that could not be read.
    pub fn new(
        base_dir: Vec<u8>,
        files: Vec<FoundFile>,
        is_directory_mode: bool,
    ) -> (out: Result<Self, String>)
        ensures
            ({
                let n = read_before_error(files@, 0);
                if n == files@.len() {
                    out matches Ok(state) && state.wf() && state@ == (StateView {
                        base_dir: base_dir@,
                        files: tracked_from(base_dir@, files@, n),
                        is_directory_mode,
                        mdlive_dir: Some(own_dir(base_dir@)),
                        daemon_mode: false,
                        config: None,
                    })
                } else {
                    files@[n as int].read is Err && fails_with(out, files@[n as int].read->Err_0@)
                }
            }),
    {
        let (tracked_files, error) = Self::track_all(base_dir.as_slice(), files);
        if let Some(e) = error {
            return Err(e);
        }
        let dir = path_join(base_dir.as_slice(), ".mdlive".as_bytes());
        Ok(
            MarkdownState {
                base_dir,
                tracked_files,
                is_directory_mode,
                mdlive_dir: Some(dir),
                daemon_mode: false,
                config: None,
            },
        )
    }

    /// The state of a server that starts without a workspace.
    pub fn new_daemon_with_config(config: AppConfig) -> (state: Self)
        ensures
            state.wf(),
            state@ == (StateView {
                base_dir: Seq::<u8>::empty(),
                files: Map::<Seq<char>, TrackedView>::empty(),
                is_directory_mode: false,
                mdlive_dir: None,
                daemon_mode: true,
                config: Some(config),
            }),
    {
        MarkdownState {
            base_dir: Vec::new(),
            tracked_files: Table::new(),
            is_directory_mode: false,
            mdlive_dir: None,
            daemon_mode: true,
            config: Some(config),
        }
    }

    /// Whether a workspace is open.
    pub fn has_workspace(&self) -> (r: bool)
        ensures
            r == (self@.base_dir.len() > 0),
    {
        self.base_dir.len() > 0
    }

    /// Whether pages show the sidebar.
    pub fn show_navigation(&self) -> (r: bool)
        ensures
            r == self@.is_directory_mode,
    {
        self.is_directory_mode
    }

    /// Opens another workspace in place of the current one. Where a file
    /// cannot be read its error is returned, and the state is left with the
    /// files before it.
    pub fn switch_workspace(
        &mut self,
        new_dir: Vec<u8>,
        files: Vec<FoundFile>,
        dir_mode: bool,
        target_file: Option<String>,
        original_path: Option<String>,
    ) -> (out: Result<Switched, String>)
        ensures
            final(self).wf(),
            ({
                let n = read_before_error(files@, 0);
                let left = StateView {
                    base_dir: new_dir@,
                    files: tracked_from(new_dir@, files@, n),
                    is_directory_mode: dir_mode,
                    ..old(self)@
                };
                if n == files@.len() {
                    &&& final(self)@ == (StateView { mdlive_dir: Some(own_dir(new_dir@)), ..left })
                    &&& out is Ok
                    &&& out->Ok_0.history_dir@ == history_dir(new_dir@)
                    &&& out->Ok_0.message@ == (MessageView::WorkspaceChanged {
                        base_dir: crate::text::lossy_text(new_dir@),
                        file: text_view(target_file),
                    })
                    &&& out->Ok_0.opened is Some <==> old(self)@.config is Some
                    &&& out->Ok_0.opened matches Some(opened) ==> opened.path@ == recent_path(
                        new_dir@,
                        dir_mode,
                        text_view(original_path),
                    ) && opened.mode@ == (if dir_mode {
                        "directory"@
                    } else {
                        "file"@
                    })
                } else {
                    &&& final(self)@ == left
                    &&& files@[n as int].read is Err
                    &&& fails_with(out, files@[n as int].read->Err_0@)
                }
            }),
    {
        let (tracked_files, error) = Self::track_all(new_dir.as_slice(), files);
        self.base_dir = new_dir;
        self.is_directory_mode = dir_mode;
        self.tracked_files = tracked_files;
        if let Some(e) = error {
            return Err(e);
        }
        let dir = path_join(self.base_dir.as_slice(), ".mdlive".as_bytes());
        let history_dir = history_directory(self.base_dir.as_slice());
        self.mdlive_dir = Some(dir);

        let mode = if dir_mode {
            "directory"
        } else {
            "file"
        };
        let path = match original_path {
            Some(path) if !dir_mode => path,
            _ => from_utf8_lossy(self.base_dir.as_slice()),
        };
        let opened = if self.config.is_some() {
            Some(Opened { path, mode: mode.to_owned() })
        } else {
            None
        };
        let message = ServerMessage::WorkspaceChanged {
            base_dir: from_utf8_lossy(self.base_dir.as_slice()),
            file: target_file,
        };
        Ok(Switched { history_dir, opened, message })
    }

    /// The keys of all tracked files, sorted.
    pub fn get_sorted_filenames(&self) -> (names: Vec<String>)
        requires
            self.wf(),
        ensures
            sorted(views(names@), text_order()),
            views(names@).no_duplicates(),
            views(names@).to_set() == self@.files.dom(),
    {
        let mut names: Vec<String> = Vec::new();
        let n = self.tracked_files.len();
        for i in 0..n
            invariant
                self.wf(),
                n == self.tracked_files.keys().len(),
                views(names@) == self.tracked_files.keys().take(i as int),
        {
            let ghost held = names@;
            names.push(self.tracked_files.key_at(i).clone());
            assert(views(names@) =~= views(held).push(self.tracked_files.keys()[i as int]));
        }
        let ghost keys = self.tracked_files.keys();
        let sorted_names = sort(names);
        proof {
            assert(keys.take(n as int) =~= keys);
            self.tracked_files.lemma_keys();
            lemma_same_items(views(sorted_names@), keys);
        }
        sorted_names
    }

    /// What the sidebar lists: one entry for every tracked file, by name. The
    /// times are those on disk, so that the list shows edits that were missed.
    pub fn get_file_infos(&self, times: &Vec<(Vec<u8>, DiskTimes)>) -> (infos: Vec<FileInfo>)
        requires
            self.wf(),
        ensures
            sorted(views(infos@), FileInfo::order()),
            names_of(views(infos@)).no_duplicates(),
            names_of(views(infos@)).to_set() == self@.files.dom(),
            forall|i: int|
                0 <= i < infos@.len() ==> self@.files.contains_key((#[trigger] infos@[i]).name@)
                    && infos@[i]@ == info_of(
                    infos@[i].name@,
                    self@.files[infos@[i].name@],
                    times@,
                ),
    {
        let mut infos: Vec<FileInfo> = Vec::new();
        let n = self.tracked_files.len();
        let ghost keys = self.tracked_files.keys();
        let ghost listed = Seq::new(
            keys.len(),
            |i: int| info_of(keys[i], self@.files[keys[i]], times@),
        );
        for i in 0..n
            invariant
                self.wf(),
                n == keys.len(),
                keys == self.tracked_files.keys(),
                listed.len() == n,
                forall|j: int|
                    0 <= j < n ==> #[trigger] listed[j] == info_of(
                        keys[j],
                        self@.files[keys[j]],
                        times@,
                    ),
                views(infos@) == listed.take(i as int),
        {
            let ghost held = infos@;
            let name = self.tracked_files.key_at(i).clone();
            let file = self.tracked_files.value_at(i);
            let now = disk_times(times, file.path.as_slice());
            let modified = match now.modified {
                Some(t) => t.to_epoch(),
                None => file.last_modified.to_epoch(),
            };
            let created = match now.created {
                Some(t) => t.to_epoch(),
                None => file.created.to_epoch(),
            };
            infos.push(FileInfo { name, modified, created });
            assert(views(infos@) =~= views(held).push(listed[i as int]));
        }
        let by_name = sort(infos);
        proof {
            assert(listed.take(n as int) =~= listed);
            self.tracked_files.lemma_keys();
            let out = views(by_name@);
            assert(names_of(listed) =~= keys);
            assert(listed.no_duplicates()) by {
                assert forall|i: int, j: int|
                    0 <= i < listed.len() && 0 <= j < listed.len() && i != j implies listed[i]
                    != listed[j] by {
                    assert(listed[i].name == keys[i] && listed[j].name == keys[j]);
                }
            }
            lemma_same_items(out, listed);
            assert forall|i: int| 0 <= i < by_name@.len() implies self@.files.contains_key(
                (#[trigger] by_name@[i]).name@,
            ) && by_name@[i]@ == info_of(
                by_name@[i].name@,
                self@.files[by_name@[i].name@],
                times@,
            ) by {
                assert(out[i] == by_name@[i]@);
                assert(out.to_set().contains(out[i]));
                let j = choose|j: int| 0 <= j < listed.len() && listed[j] == out[i];
                assert(self.tracked_files.keys().to_set().contains(keys[j]));
            }
            assert forall|i: int, j: int|
                0 <= i < out.len() && 0 <= j < out.len() && i != j implies names_of(out)[i]
                != names_of(out)[j] by {
                assert(by_name@[i]@ == out[i] && by_name@[j]@ == out[j]);
                assert(out[i] != out[j]);
            }
            assert(names_of(out).to_set() =~= self@.files.dom()) by {
                assert forall|k: Seq<char>| names_of(out).contains(k) <==> self@.files.dom().contains(
                    k,
                ) by {
                    if names_of(out).contains(k) {
                        let i = choose|i: int| 0 <= i < out.len() && names_of(out)[i] == k;
                        assert(by_name@[i]@ == out[i]);
                    }
                    if self@.files.dom().contains(k) {
                        assert(keys.to_set().contains(k));
                        let j = choose|j: int| 0 <= j < keys.len() && keys[j] == k;
                        assert(listed.to_set().contains(listed[j]));
                        assert(out.to_set().contains(listed[j]));
                        let i = choose|i: int| 0 <= i < out.len() && out[i] == listed[j];
                        assert(names_of(out)[i] == k);
                    }
                }
            }
        }
        by_name
    }

    /// Whether a tracked file is older than the given time.
    pub fn needs_refresh(&self, filename: &str, modified: FileTime) -> (r: bool)
        requires
            self.wf(),
        ensures
            r == (self@.files.contains_key(filename@) && modified.nanoseconds()
                > self@.files[filename@].last_modified.nanoseconds()),
    {
        match self.tracked_files.get(filename) {
            Some(file) => modified.is_later_than(file.last_modified),
            None => false,
        }
    }

    /// Brings a tracked file up to date with what stands on disk, if that is
    /// newer. A file that is not tracked is left alone.
    pub fn refresh_file(&mut self, filename: &str, disk: Result<DiskVersion, String>) -> (out:
        Result<(), String>)
        requires
            old(self).wf(),
        ensures
            final(self).wf(),
            ({
                let before = old(self)@;
                let file = before.files[filename@];
                if !before.files.contains_key(filename@) {
                    out is Ok && final(self)@ == before
                } else {
                    match disk {
                        Err(error) => final(self)@ == before && fails_with(out, error@),
                        Ok(version) => if version.modified.nanoseconds()
                            <= file.last_modified.nanoseconds() {
                            out is Ok && final(self)@ == before
                        } else {
                            match version.content {
                                Err(error) => final(self)@ == before && fails_with(out, error@),
                                Ok(content) => out is Ok && final(self)@ == refreshed(
                                    before,
                                    filename@,
                                    version.modified,
                                    content,
                                ),
                            }
                        },
                    }
                }
            }),
    {
        let renewed = match self.tracked_files.get(filename) {
            Some(file) => match disk {
                Ok(version) => if version.modified.is_later_than(file.last_modified) {
                    match version.content {
                        Ok(content) => TrackedFile {
                            path: vstd::slice::slice_to_vec(file.path.as_slice()),
                            last_modified: version.modified,
                            created: file.created,
                            html: content.into_html(file.path.as_slice()),
                        },
                        Err(e) => {
                            return Err(e);
                        },
                    }
                } else {
                    return Ok(());
                },
                Err(e) => {
                    return Err(e);
                },
            },
            None => {
                return Ok(());
            },
        };
        self.tracked_files.insert(filename.to_owned(), renewed);
        Ok(())
    }

    /// The key under which a path is tracked.
    pub fn key_of(&self, path: &[u8]) -> (key: String)
        ensures
            key@ == crate::path::key_below(self@.base_dir, path@),
    {
        path_key_below(self.base_dir.as_slice(), path)
    }

    /// Tracks another file, unless one is tracked under its key. What reading
    /// it gave counts only if none is.
    pub fn add_tracked_file(&mut self, file_path: Vec<u8>, read: Result<LoadedFile, String>) -> (out:
        Result<(), String>)
        requires
            old(self).wf(),
        ensures
            final(self).wf(),
            ({
                let before = old(self)@;
                let key = crate::path::key_below(before.base_dir, file_path@);
                if before.files.contains_key(key) {
                    out is Ok && final(self)@ == before
                } else {
                    match read {
                        Ok(loaded) => out is Ok && final(self)@ == with_file(
                            before,
                            file_path@,
                            loaded,
                        ),
                        Err(error) => final(self)@ == before && fails_with(out, error@),
                    }
                }
            }),
    {
        let key = self.key_of(file_path.as_slice());
        if self.tracked_files.contains_key(key.as_str()) {
            return Ok(());
        }
        match read {
            Ok(loaded) => {
                let path = vstd::slice::slice_to_vec(file_path.as_slice());
                self.tracked_files.insert(key, loaded.track(file_path.as_slice(), path));
                Ok(())
            },
            Err(e) => Err(e),
        }
    }

    /// Stops tracking a file. Tells whether it was tracked.
    pub fn remove_tracked_file(&mut self, key: &str) -> (removed: bool)
        requires
            old(self).wf(),
        ensures
            final(self).wf(),
            removed == old(self)@.files.contains_key(key@),
            final(self)@ == (StateView { files: old(self)@.files.remove(key@), ..old(self)@ }),
    {
        self.tracked_files.remove(key)
    }
}

/// Files that are not Markdown show what they hold: of two different texts,
/// different HTML is shown.
pub proof fn law_other_text_is_shown_faithfully(path: Seq<u8>, a: FileContent, b: FileContent)
    requires
        !crate::util::is_markdown(path),
        content_html(path, a) == content_html(path, b),
    ensures
        a.text@ == b.text@,
{
    let front = "<pre><code class=\"language-"@ + (if crate::util::is_json(path) {
        "json"@
    } else {
        "plaintext"@
    }) + "\">"@;
    let back = "</code></pre>"@;
    let x = crate::text::html_escaped(a.text@);
    let y = crate::text::html_escaped(b.text@);
    let html = front + x + back;
    assert(html == front + y + back);
    assert(html.len() == front.len() + x.len() + back.len());
    assert(html.len() == front.len() + y.len() + back.len());
    assert(x =~= html.subrange(front.len() as int, (front.len() + x.len()) as int));
    assert(y =~= html.subrange(front.len() as int, (front.len() + y.len()) as int));
    crate::text::law_escaping_is_faithful(a.text@, b.text@);
}

/// A file that is not Markdown is shown as one block of code, with the class of its
/// language. What stands in the block holds no `<`, no `>` and no `"`, so that a
/// browser finds no tag in it, and replacing its character references gives the
/// text of the file back.
pub proof fn law_other_text_is_shown_in_a_code_block(path: Seq<u8>, content: FileContent)
    requires
        !crate::util::is_markdown(path),
    ensures
        ({
            let html = content_html(path, content);
            let open = if crate::util::is_json(path) {
                "<pre><code class=\"language-json\">"@
            } else {
                "<pre><code class=\"language-plaintext\">"@
            };
            let close = "</code></pre>"@;
            let shown = html.subrange(open.len() as int, html.len() - close.len());
            &&& html == open + shown + close
            &&& !shown.contains('<')
            &&& !shown.contains('>')
            &&& !shown.contains('"')
            &&& shown == crate::text::html_escaped(content.text@)
            &&& crate::text::unescaped(shown) == content.text@
            &&& file_html(path, content.text@, content.rendering) == html
            &&& text_html(path, content.text@) == html
        }),
{
    reveal_strlit("<pre><code class=\"language-json\">");
    reveal_strlit("<pre><code class=\"language-plaintext\">");
    reveal_strlit("<pre><code class=\"language-");
    reveal_strlit("json");
    reveal_strlit("plaintext");
    reveal_strlit("\">");
    let open = if crate::util::is_json(path) {
        "<pre><code class=\"language-json\">"@
    } else {
        "<pre><code class=\"language-plaintext\">"@
    };
    let close = "</code></pre>"@;
    let front = "<pre><code class=\"language-"@ + (if crate::util::is_json(path) {
        "json"@
    } else {
        "plaintext"@
    }) + "\">"@;
    assert(front =~= open);
    let escaped = crate::text::html_escaped(content.text@);
    let html = content_html(path, content);
    assert(html =~= open + escaped + close);
    assert(html.subrange(open.len() as int, html.len() - close.len()) =~= escaped);
    crate::text::law_escaped_text_holds_no_markup(content.text@);
    crate::text::law_unescaping_gives_the_text_back(content.text@);
}

/// A Markdown file is shown as the parser rendered it, whatever its text is. Where
/// the parser failed, a note that does not depend on the file says so.
pub proof fn law_markdown_is_shown_as_rendered(path: Seq<u8>, content: FileContent)
    requires
        crate::util::is_markdown(path),
    ensures
        content.rendering matches Rendering::Html(html) ==> content_html(path, content) == html@,
        content.rendering is Rejected ==> content_html(path, content)
            == "Error parsing markdown"@,
        content.rendering is Panicked ==> content_html(path, content)
            == "<p><em>Could not render this file (markdown parser error)</em></p>"@,
        file_html(path, content.text@, content.rendering) == content_html(path, content),
        rendering_html(content.rendering) == content_html(path, content),
{
}

/// A file that was read is tracked with its times and its HTML; where it is not
/// known when it was made, the time of its last change counts.
pub proof fn law_file_is_tracked_as_it_was_read(
    file: LoadedFile,
    read_path: Seq<u8>,
    path: Seq<u8>,
)
    ensures
        ({
            let kept = file.as_tracked(read_path, path);
            &&& kept.path == path
            &&& kept.last_modified == file.modified
            &&& file.created matches Some(created) ==> kept.created == created
            &&& file.created is None ==> kept.created == file.modified
            &&& kept.html == content_html(read_path, file.content)
        }),
{
}

/// A found file counts with its canonical path, if it has one.
pub proof fn law_found_file_counts_with_its_canonical_path(file: FoundFile)
    ensures
        file.canonical matches Some(canonical) ==> file.resolved() == canonical@,
        file.canonical is None ==> file.resolved() == file.path@,
{
}

/// A newer version of a tracked file is shown from then on, and one that is not
/// newer changes nothing; nor does a version of a file that is not tracked.
pub proof fn law_newer_version_is_shown(
    state: StateView,
    name: Seq<char>,
    modified: FileTime,
    content: FileContent,
)
    ensures
        ({
            let after = refreshed(state, name, modified, content);
            let newer = modified.nanoseconds() > state.files[name].last_modified.nanoseconds();
            &&& state.files.contains_key(name) && newer ==> after.files.contains_key(name)
                && after.files[name].html == content_html(state.files[name].path, content)
                && after.files[name].last_modified == modified
            &&& !state.files.contains_key(name) || !newer ==> after == state
            &&& after.base_dir == state.base_dir
            &&& after.is_directory_mode == state.is_directory_mode
            &&& after.mdlive_dir == state.mdlive_dir
            &&& after.daemon_mode == state.daemon_mode
            &&& after.config == state.config
        }),
{
}

/// A file whose key is free is tracked under its path below the base directory, as
/// it was read, and nothing else changes.
pub proof fn law_added_file_is_tracked_as_it_was_read(
    state: StateView,
    path: Seq<u8>,
    file: LoadedFile,
    key: Seq<char>,
)
    requires
        !state.files.contains_key(crate::path::key_below(state.base_dir, path)),
    ensures
        ({
            let after = with_file(state, path, file);
            let added = crate::path::key_below(state.base_dir, path);
            &&& after.files[added].path == path
            &&& after.files[added].last_modified == file.modified
            &&& after.files[added].html == content_html(path, file.content)
            &&& file.created matches Some(created) ==> after.files[added].created == created
            &&& file.created is None ==> after.files[added].created == file.modified
            &&& after.files.contains_key(key) ==> key == added || state.files.contains_key(key)
            &&& after.base_dir == state.base_dir
            &&& after.is_directory_mode == state.is_directory_mode
            &&& after.mdlive_dir == state.mdlive_dir
            &&& after.daemon_mode == state.daemon_mode
            &&& after.config == state.config
        }),
{
}

/// In a new workspace a found file is tracked as it was read, under its path below
/// the base directory; of two with the same key the last counts.
pub proof fn law_workspace_tracks_files_as_read(
    base_dir: Seq<u8>,
    files: Seq<FoundFile>,
    n: nat,
    i: int,
)
    requires
        0 <= i < n <= files.len(),
        files[i].read is Ok,
        forall|j: int|
            i < j < n && (#[trigger] files[j]).read is Ok ==> crate::path::key_below(
                base_dir,
                files[j].resolved(),
            ) != crate::path::key_below(base_dir, files[i].resolved()),
    ensures
        ({
            let key = crate::path::key_below(base_dir, files[i].resolved());
            let after = tracked_from(base_dir, files, n);
            let file = files[i].read->Ok_0;
            &&& after.contains_key(key)
            &&& after[key].path == files[i].resolved()
            &&& after[key].last_modified == file.modified
            &&& after[key].html == content_html(files[i].path@, file.content)
            &&& file.created matches Some(created) ==> after[key].created == created
            &&& file.created is None ==> after[key].created == file.modified
        }),
    decreases n,
{
    if i < n - 1 {
        law_workspace_tracks_files_as_read(base_dir, files, (n - 1) as nat, i);
        assert(files[n - 1].read is Ok ==> crate::path::key_below(
            base_dir,
            files[n - 1].resolved(),
        ) != crate::path::key_below(base_dir, files[i].resolved()));
    }
}

/// The first file that cannot be read ends the tracking: all before it could be
/// read.
pub proof fn law_tracking_ends_at_the_first_error(files: Seq<FoundFile>, i: int)
    ensures
        ({
            let n = read_before_error(files, 0);
            &&& n <= files.len()
            &&& 0 <= i < n ==> files[i].read is Ok
            &&& n < files.len() ==> files[n as int].read is Err
        }),
{
    lemma_read_before_error(files, 0);
    lemma_all_read(files, 0, i);
}

proof fn lemma_all_read(files: Seq<FoundFile>, n: nat, i: int)
    requires
        n <= files.len(),
    ensures
        n <= i < read_before_error(files, n) ==> files[i].read is Ok,
        read_before_error(files, n) < files.len() ==> files[read_before_error(
            files,
            n,
        ) as int].read is Err,
    decreases files.len() - n,
{
    if n < files.len() && files[n as int].read is Ok {
        lemma_all_read(files, n + 1, i);
    }
}

/// The times that are found for a path are those of the first entry for it, or none.
pub proof fn law_times_are_those_found(times: Seq<(Vec<u8>, DiskTimes)>, path: Seq<u8>, i: int)
    ensures
        (forall|j: int| 0 <= j < times.len() ==> (#[trigger] times[j]).0@ != path) ==> times_of(
            times,
            path,
        ).modified is None && times_of(times, path).created is None,
        0 <= i < times.len() && times[i].0@ == path && (forall|j: int|
            0 <= j < i ==> (#[trigger] times[j]).0@ != path) ==> times_of(times, path)
            == times[i].1,
    decreases times.len(),
{
    if times.len() > 0 && times[0].0@ != path {
        let rest = times.skip(1);
        law_times_are_those_found(rest, path, i - 1);
        if forall|j: int| 0 <= j < times.len() ==> (#[trigger] times[j]).0@ != path {
            assert forall|j: int| 0 <= j < rest.len() implies (#[trigger] rest[j]).0@ != path by {
                assert(rest[j] == times[j + 1]);
            }
        }
        if 0 <= i < times.len() && times[i].0@ == path && (forall|j: int|
            0 <= j < i ==> (#[trigger] times[j]).0@ != path) {
            assert(rest[i - 1] == times[i]);
            assert forall|j: int| 0 <= j < i - 1 implies (#[trigger] rest[j]).0@ != path by {
                assert(rest[j] == times[j + 1]);
            }
        }
    }
}

/// The sidebar lists a file under its name, with the times that stand on disk, and
/// in place of one that could not be had the one that the file is tracked with.
pub proof fn law_sidebar_shows_the_times_on_disk(
    name: Seq<char>,
    file: TrackedView,
    times: Seq<(Vec<u8>, DiskTimes)>,
)
    ensures
        ({
            let info = info_of(name, file, times);
            let now = times_of(times, file.path);
            &&& info.name == name
            &&& now.modified matches Some(t) ==> info.modified == t.epoch_secs()
            &&& now.modified is None ==> info.modified == file.last_modified.epoch_secs()
            &&& now.created matches Some(t) ==> info.created == t.epoch_secs()
            &&& now.created is None ==> info.created == file.created.epoch_secs()
        }),
{
}

/// The sidebar lists files by their names alone.
pub proof fn law_sidebar_is_ordered_by_name(infos: Seq<FileInfoView>, i: int, j: int)
    requires
        sorted(infos, FileInfo::order()),
        0 <= i < j < infos.len(),
    ensures
        text_order()(infos[i].name, infos[j].name),
        names_of(infos).len() == infos.len(),
        names_of(infos)[i] == infos[i].name,
{
    let order = FileInfo::order();
    assert(order(infos[i], infos[j]));
}

/// The program keeps its own files in `.mdlive` right below the base directory, and
/// the history of files in `history` right below that. Changes there are passed
/// over.
pub proof fn law_own_files_lie_below_the_base(base_dir: Seq<u8>)
    ensures
        crate::path::components(own_dir(base_dir)) == crate::path::components(base_dir).push(
            vstd::utf8::encode_utf8(".mdlive"@),
        ),
        crate::path::components(history_dir(base_dir)) == crate::path::components(base_dir).push(
            vstd::utf8::encode_utf8(".mdlive"@),
        ).push(vstd::utf8::encode_utf8("history"@)),
        crate::path::strip_prefix(own_dir(base_dir), base_dir) is Some,
        crate::util::in_mdlive(own_dir(base_dir)),
        crate::util::in_mdlive(history_dir(base_dir)),
{
    reveal_strlit(".mdlive");
    reveal_strlit("history");
    let a = vstd::utf8::encode_utf8(".mdlive"@);
    let b = vstd::utf8::encode_utf8("history"@);
    assert(vstd::utf8::is_ascii_chars(".mdlive"@) && vstd::utf8::is_ascii_chars("history"@));
    vstd::utf8::is_ascii_chars_encode_utf8(".mdlive"@);
    vstd::utf8::is_ascii_chars_encode_utf8("history"@);
    assert forall|i: int| 0 <= i < 7 implies a[i] != crate::path::SLASH && b[i]
        != crate::path::SLASH by {
        assert(".mdlive"@[i] as u8 == a[i]);
        assert("history"@[i] as u8 == b[i]);
    }
    let base = crate::path::components(base_dir);
    let own = own_dir(base_dir);
    crate::path::law_components_stand_between_separators(base_dir, a);
    crate::path::law_components_stand_between_separators(base_dir, b);
    crate::path::law_join_appends_components(base_dir, a);
    crate::path::law_join_appends_components(own, b);
    assert(a[1] != crate::path::SLASH && b[1] != crate::path::SLASH);
    assert(base + seq![a] =~= base.push(a));
    assert(crate::path::components(own) + seq![b] =~= crate::path::components(own).push(b));
    crate::path::law_strip_splits_the_components(own, base_dir);
    assert(crate::path::components(own) == base + seq![a]);
    assert(base.push(a)[base.len() as int] == a);
    assert(base.push(a).push(b)[base.len() as int] == a);
}

/// A workspace is remembered by its directory; one that was opened as a file, by the
/// path that was given for it, if one was.
pub proof fn law_workspace_is_remembered_by_its_path(
    base_dir: Seq<u8>,
    original_path: Option<Seq<char>>,
)
    ensures
        recent_path(base_dir, true, original_path) == crate::text::lossy_text(base_dir),
        original_path matches Some(path) ==> recent_path(base_dir, false, original_path) == path,
        original_path is None ==> recent_path(base_dir, false, original_path)
            == crate::text::lossy_text(base_dir),
{
}

/// Bringing a file up to date twice with the same version is the same as once.
pub proof fn law_refresh_is_idempotent(
    state: StateView,
    name: Seq<char>,
    modified: FileTime,
    content: FileContent,
)
    ensures
        refreshed(refreshed(state, name, modified, content), name, modified, content) == refreshed(
            state,
            name,
            modified,
            content,
        ),
{
}

/// Bringing a file up to date tracks the same files as before, never makes one
/// older, and touches no other file.
pub proof fn law_refresh_only_moves_forward(
    state: StateView,
    name: Seq<char>,
    modified: FileTime,
    content: FileContent,
    key: Seq<char>,
)
    requires
        state.files.contains_key(key),
    ensures
        refreshed(state, name, modified, content).files.dom() == state.files.dom(),
        refreshed(state, name, modified, content).files[key].last_modified.nanoseconds()
            >= state.files[key].last_modified.nanoseconds(),
        refreshed(state, name, modified, content).files[key].path == state.files[key].path,
        refreshed(state, name, modified, content).files[key].created == state.files[key].created,
        key != name ==> refreshed(state, name, modified, content).files[key] == state.files[key],
{
    assert(refreshed(state, name, modified, content).files.dom() =~= state.files.dom());
}

/// A file that is added is tracked, adding it again changes nothing, and no
/// file that was tracked before is touched.
pub proof fn law_add_keeps_what_is_tracked(
    state: StateView,
    path: Seq<u8>,
    file: LoadedFile,
    key: Seq<char>,
)
    ensures
        with_file(state, path, file).files.contains_key(
            crate::path::key_below(state.base_dir, path),
        ),
        with_file(with_file(state, path, file), path, file) == with_file(state, path, file),
        state.files.contains_key(key) ==> with_file(state, path, file).files.contains_key(key)
            && with_file(state, path, file).files[key] == state.files[key],
{
}

/// Removing a file that was just added leaves what was tracked before.
pub proof fn law_remove_undoes_add(state: StateView, path: Seq<u8>, file: LoadedFile)
    requires
        !state.files.contains_key(crate::path::key_below(state.base_dir, path)),
    ensures
        with_file(state, path, file).files.remove(crate::path::key_below(state.base_dir, path))
            == state.files,
{
    let key = crate::path::key_below(state.base_dir, path);
    assert(with_file(state, path, file).files.remove(key) =~= state.files);
}

/// What is tracked in a new workspace are the files that were found, each under
/// its path below the base directory, and every one of them has its key tracked.
pub proof fn law_workspace_tracks_what_was_found(
    base_dir: Seq<u8>,
    files: Seq<FoundFile>,
    n: nat,
    key: Seq<char>,
)
    requires
        n <= files.len(),
        forall|i: int| 0 <= i < n ==> (#[trigger] files[i]).read is Ok,
    ensures
        tracked_from(base_dir, files, n).contains_key(key) <==> exists|i: int|
            0 <= i < n && key == crate::path::key_below(
                base_dir,
                (#[trigger] files[i]).resolved(),
            ),
        tracked_from(base_dir, files, n).contains_key(key) ==> exists|i: int|
            0 <= i < n && key == crate::path::key_below(base_dir, (#[trigger] files[i]).resolved())
                && tracked_from(base_dir, files, n)[key] == files[i].read->Ok_0.as_tracked(
                files[i].path@,
                files[i].resolved(),
            ),
    decreases n,
{
    if n > 0 {
        law_workspace_tracks_what_was_found(base_dir, files, (n - 1) as nat, key);
        let last = files[n - 1];
        assert(last.read is Ok);
        if key == crate::path::key_below(base_dir, last.resolved()) {
            assert(tracked_from(base_dir, files, n)[key] == files[n - 1].read->Ok_0.as_tracked(
                files[n - 1].path@,
                files[n - 1].resolved(),
            ));
        }
    }
}

/// The names in a list of the sidebar.
pub open spec fn names_of(infos: Seq<FileInfoView>) -> Seq<Seq<char>> {
    infos.map_values(|info: FileInfoView| info.name)
}

impl Sortable for FileInfo {
    open spec fn order() -> spec_fn(FileInfoView, FileInfoView) -> bool {
        |a: FileInfoView, b: FileInfoView| text_order()(a.name, b.name)
    }

    proof fn lemma_order() {
        lemma_text_order_total();
        let names = text_order();
        let r = Self::order();
        assert forall|x: FileInfoView, y: FileInfoView, z: FileInfoView| #[trigger]
            r(x, y) && #[trigger] r(y, z) implies r(x, z) by {
            assert(names(x.name, y.name) && names(y.name, z.name));
            assert(names(x.name, z.name));
        }
        assert forall|x: FileInfoView, y: FileInfoView| #[trigger] r(x, y) || #[trigger] r(
            y,
            x,
        ) by {
            assert(names(x.name, y.name) || names(y.name, x.name));
        }
    }

    fn at_most(&self, other: &Self) -> (r: bool) {
        text_at_most(self.name.as_str(), other.name.as_str())
    }
}

/// Two sequences with the same items, one of them without repetitions, hold
/// the same set of items without repetitions.
pub proof fn lemma_same_items<A>(a: Seq<A>, b: Seq<A>)
    requires
        a.to_multiset() == b.to_multiset(),
        b.no_duplicates(),
    ensures
        a.no_duplicates(),
        a.to_set() == b.to_set(),
        a.len() == b.len(),
{
    broadcast use vstd::seq_lib::group_to_multiset_ensures;

    b.lemma_multiset_has_no_duplicates();
    a.lemma_multiset_has_no_duplicates_conv();
    assert forall|x: A| a.contains(x) <==> b.contains(x) by {
        assert(a.to_multiset().count(x) > 0 <==> a.contains(x));
        assert(b.to_multiset().count(x) > 0 <==> b.contains(x));
    }
    assert(a.to_set() =~= b.to_set());
    assert(a.len() == a.to_multiset().len());
    assert(b.len() == b.to_multiset().len());
}

/// The times found for a path.
fn disk_times(times: &Vec<(Vec<u8>, DiskTimes)>, path: &[u8]) -> (found: DiskTimes)
    ensures
        found == times_of(times@, path@),
{
    assert(times@.skip(0) =~= times@);
    for i in 0..times.len()
        invariant
            times_of(times@, path@) == times_of(times@.skip(i as int), path@),
    {
        assert(times@.skip(i as int)[0] == times@[i as int]);
        assert(times@.skip(i as int).skip(1) =~= times@.skip(i + 1));
        if same_bytes(times[i].0.as_slice(), path) {
            return times[i].1;
        }
    }
    DiskTimes { modified: None, created: None }
}

/// What is said of a state, a file and an entry of the sidebar is what they hold.
pub proof fn law_views_show_what_is_held(
    state: MarkdownState,
    file: TrackedFile,
    info: FileInfo,
    text: String,
)
    ensures
        state@.base_dir == state.base_dir@,
        state@.files == state.tracked_files@,
        state@.is_directory_mode == state.is_directory_mode,
        state.mdlive_dir matches Some(dir) ==> state@.mdlive_dir == Some(dir@),
        state.mdlive_dir is None ==> state@.mdlive_dir is None,
        state@.daemon_mode == state.daemon_mode,
        state@.config == state.config,
        file@.path == file.path@,
        file@.last_modified == file.last_modified,
        file@.created == file.created,
        file@.html == file.html@,
        info@.name == info.name@,
        info@.modified == info.modified,
        info@.created == info.created,
        text_view(Some(text)) == Some(text@),
        text_view(None) is None,
{
}

/// What is said of a message is what it holds.
pub proof fn law_messages_say_what_they_hold(from: String, to: String, file: Option<String>)
    ensures
        ServerMessage::Reload@ == MessageView::Reload,
        ServerMessage::Pong@ == MessageView::Pong,
        (ServerMessage::FileMoved { from, to })@ == (MessageView::FileMoved {
            from: from@,
            to: to@,
        }),
        (ServerMessage::WorkspaceChanged { base_dir: from, file })@ == (
        MessageView::WorkspaceChanged { base_dir: from@, file: text_view(file) }),
{
}

} // verus!
