use mdlive::state::{
    history_directory, markdown_options, AppConfig, DiskTimes, DiskVersion, FileContent, FoundFile,
    LoadedFile, MarkdownState, RecentEntry, Rendering, ServerMessage,
};
use mdlive::time::FileTime;

fn at(secs: u64) -> FileTime {
    FileTime::AfterEpoch { secs, nanos: 0 }
}

fn content(text: &str) -> FileContent {
    FileContent { text: text.into(), rendering: Rendering::Html(format!("<p>{text}</p>")) }
}

fn loaded(secs: u64, text: &str) -> LoadedFile {
    LoadedFile { modified: at(secs), created: None, content: content(text) }
}

fn found(path: &str, content: &str) -> FoundFile {
    FoundFile {
        path: path.as_bytes().to_vec(),
        canonical: Some(path.as_bytes().to_vec()),
        read: Ok(loaded(10, content)),
    }
}

fn workspace(files: &[&str]) -> MarkdownState {
    let files = files.iter().map(|f| found(&format!("/base/{f}"), "text")).collect();
    MarkdownState::new(b"/base".to_vec(), files, true).ok().unwrap()
}

fn empty_config() -> AppConfig {
    AppConfig { recent: vec![], last_workspaces: vec![], last_browse_dir: None }
}

fn rendered(text: &str) -> Rendering {
    let wanted = markdown_options();
    assert!(wanted.gfm);
    let mut options = markdown::Options::gfm();
    options.compile.allow_dangerous_html = wanted.allow_dangerous_html;
    options.parse.constructs.frontmatter = wanted.frontmatter;
    match markdown::to_html_with_options(text, &options) {
        Ok(html) => Rendering::Html(html),
        Err(_) => Rendering::Rejected,
    }
}

#[test]
fn markdown_is_rendered_with_html_and_frontmatter() {
    let html = |text: &str| MarkdownState::markdown_to_html(rendered(text));
    assert_eq!(html("# Hi"), "<h1>Hi</h1>");
    assert_eq!(html("<b>x</b>"), "<p><b>x</b></p>");
    assert_eq!(html("---\na: b\n---\n\ntext"), "<p>text</p>");
    assert!(html("|a|\n|-|\n|b|").contains("<table>"));
    assert!(html("```mermaid\ngraph\n```").contains("class=\"language-mermaid\""));
}

#[test]
fn other_text_is_escaped_in_a_code_block() {
    assert_eq!(
        MarkdownState::text_to_html(b"a.json", "{\"a\": 1}"),
        "<pre><code class=\"language-json\">{&quot;a&quot;: 1}</code></pre>"
    );
    assert_eq!(
        MarkdownState::text_to_html(b"a.txt", "<&>"),
        "<pre><code class=\"language-plaintext\">&lt;&amp;&gt;</code></pre>"
    );
    let html = |path: &[u8], text: &str| {
        MarkdownState::render_file_to_html(path, text, Rendering::Html("<p>shown</p>".into()))
    };
    assert_eq!(html(b"a.toml", "x"), "<pre><code class=\"language-plaintext\">x</code></pre>");
    assert_eq!(html(b"a.MD", "x"), "<p>shown</p>");
    assert_ne!(html(b"a.txt", "<"), html(b"a.txt", "&lt;"));
}

#[test]
fn failed_renderings_are_noted() {
    assert_eq!(MarkdownState::markdown_to_html(Rendering::Html("x".into())), "x");
    assert_eq!(MarkdownState::markdown_to_html(Rendering::Rejected), "Error parsing markdown");
    let note = "<p><em>Could not render this file (markdown parser error)</em></p>";
    assert_eq!(MarkdownState::markdown_to_html(Rendering::Panicked), note);
    let panicked = || FileContent { text: "x".into(), rendering: Rendering::Panicked };
    assert_eq!(panicked().into_html(b"a.md"), note);
    assert_eq!(
        panicked().into_html(b"a.txt"),
        "<pre><code class=\"language-plaintext\">x</code></pre>"
    );
}

#[test]
fn a_workspace_tracks_its_files_by_relative_path() {
    let state = workspace(&["b.md", "sub/a.md", "a.txt"]);
    assert_eq!(state.get_sorted_filenames(), vec!["a.txt", "b.md", "sub/a.md"]);
    let file = state.tracked_files.get("sub/a.md").unwrap();
    assert_eq!(file.path, b"/base/sub/a.md");
    assert_eq!(file.html, "<p>text</p>");
    assert!(file.created == at(10));
    assert_eq!(state.mdlive_dir, Some(b"/base/.mdlive".to_vec()));
    assert!(!state.daemon_mode && state.show_navigation() && state.has_workspace());
    assert_eq!(history_directory(b"/base"), b"/base/.mdlive/history");
}

#[test]
fn the_canonical_path_counts_where_there_is_one() {
    let file = FoundFile {
        path: b"/link/a.md".to_vec(),
        canonical: None,
        read: Ok(loaded(1, "x")),
    };
    let other = FoundFile {
        path: b"/link/b.md".to_vec(),
        canonical: Some(b"/base/b.md".to_vec()),
        read: Ok(LoadedFile { created: Some(at(1)), ..loaded(2, "y") }),
    };
    let state = MarkdownState::new(b"/base".to_vec(), vec![file, other], true).ok().unwrap();
    assert_eq!(state.get_sorted_filenames(), vec!["/link/a.md", "b.md"]);
    assert!(state.tracked_files.get("b.md").unwrap().created == at(1));
}

#[test]
fn a_file_is_shown_by_the_path_it_was_read_from() {
    let file = FoundFile {
        path: b"/base/link.txt".to_vec(),
        canonical: Some(b"/base/target.md".to_vec()),
        read: Ok(loaded(1, "x")),
    };
    let mut state = MarkdownState::new(b"/base".to_vec(), vec![file], true).ok().unwrap();
    let shown = |state: &MarkdownState| state.tracked_files.get("target.md").unwrap().html.clone();
    assert_eq!(shown(&state), "<pre><code class=\"language-plaintext\">x</code></pre>");
    let version = DiskVersion { modified: at(2), content: Ok(content("x")) };
    assert_eq!(state.refresh_file("target.md", Ok(version)), Ok(()));
    assert_eq!(shown(&state), "<p>x</p>");
}

#[test]
fn the_first_unreadable_file_is_an_error() {
    let bad = |e: &str| FoundFile {
        path: b"/base/x.md".to_vec(),
        canonical: None,
        read: Err(e.to_string()),
    };
    let files = vec![found("/base/a.md", "x"), bad("first"), bad("second")];
    assert_eq!(MarkdownState::new(b"/base".to_vec(), files, true).err(), Some("first".to_string()));

    let mut state = workspace(&["old.md"]);
    let files = vec![found("/new/a.md", "x"), bad("first"), found("/new/b.md", "x")];
    let out = state.switch_workspace(b"/new".to_vec(), files, false, None, None);
    assert_eq!(out.err(), Some("first".to_string()));
    assert_eq!(state.get_sorted_filenames(), vec!["a.md"]);
    assert_eq!(state.base_dir, b"/new");
    assert!(!state.is_directory_mode);
    assert_eq!(state.mdlive_dir, Some(b"/base/.mdlive".to_vec()));
}

#[test]
fn switching_replaces_the_workspace_and_tells_the_pages() {
    let mut state = MarkdownState::new_daemon_with_config(empty_config());
    assert!(!state.has_workspace());
    let out = state
        .switch_workspace(
            b"/new".to_vec(),
            vec![found("/new/a.md", "x")],
            false,
            Some("a.md".into()),
            Some("/new/a.md".into()),
        )
        .ok()
        .unwrap();
    assert!(state.has_workspace());
    assert_eq!(out.history_dir, b"/new/.mdlive/history");
    let opened = out.opened.unwrap();
    assert_eq!((opened.path.as_str(), opened.mode.as_str()), ("/new/a.md", "file"));
    assert_eq!(
        out.message,
        ServerMessage::WorkspaceChanged { base_dir: "/new".into(), file: Some("a.md".into()) }
    );

    let out = state
        .switch_workspace(b"/dir".to_vec(), vec![], true, None, Some("/other".into()))
        .ok()
        .unwrap();
    let opened = out.opened.unwrap();
    assert_eq!((opened.path.as_str(), opened.mode.as_str()), ("/dir", "directory"));
    assert!(state.get_sorted_filenames().is_empty());

    let mut plain = workspace(&[]);
    let out = plain.switch_workspace(b"/dir".to_vec(), vec![], false, None, None).ok().unwrap();
    assert!(out.opened.is_none());
}

#[test]
fn the_sidebar_lists_times_from_disk() {
    let state = workspace(&["b.md", "a.md", "c.md"]);
    let times = vec![
        (b"/base/a.md".to_vec(), DiskTimes { modified: Some(at(99)), created: None }),
        (b"/base/b.md".to_vec(), DiskTimes { modified: None, created: Some(at(98)) }),
        (b"/base/a.md".to_vec(), DiskTimes { modified: Some(at(1)), created: Some(at(1)) }),
    ];
    let infos: Vec<_> =
        state.get_file_infos(&times).into_iter().map(|i| (i.name, i.modified, i.created)).collect();
    assert_eq!(
        infos,
        vec![
            ("a.md".to_string(), 99, 10),
            ("b.md".to_string(), 10, 98),
            ("c.md".to_string(), 10, 10),
        ]
    );
}

#[test]
fn only_a_newer_version_refreshes_a_file() {
    let mut state = workspace(&["a.md"]);
    let version = |secs: u64, text: &str| {
        Ok(DiskVersion { modified: at(secs), content: Ok(content(text)) })
    };
    assert!(!state.needs_refresh("a.md", at(10)) && state.needs_refresh("a.md", at(11)));
    assert!(!state.needs_refresh("x.md", at(11)));
    assert_eq!(state.refresh_file("a.md", version(10, "same")), Ok(()));
    assert_eq!(state.tracked_files.get("a.md").unwrap().html, "<p>text</p>");
    assert_eq!(state.refresh_file("a.md", version(11, "new")), Ok(()));
    assert_eq!(state.tracked_files.get("a.md").unwrap().html, "<p>new</p>");
    assert_eq!(state.refresh_file("a.md", version(11, "again")), Ok(()));
    assert_eq!(state.tracked_files.get("a.md").unwrap().html, "<p>new</p>");
    assert!(state.tracked_files.get("a.md").unwrap().last_modified == at(11));
    assert_eq!(state.refresh_file("x.md", Err("gone".into())), Ok(()));
    assert_eq!(state.refresh_file("a.md", Err("gone".into())), Err("gone".into()));
    let unread = DiskVersion { modified: at(12), content: Err("locked".into()) };
    assert_eq!(state.refresh_file("a.md", Ok(unread)), Err("locked".into()));
    assert!(state.tracked_files.get("a.md").unwrap().last_modified == at(11));
}

#[test]
fn files_are_added_once_and_removed() {
    let mut state = workspace(&["a.md"]);
    let path = b"/base/b.md".to_vec();
    assert_eq!(state.add_tracked_file(path.clone(), Ok(loaded(1, "one"))), Ok(()));
    assert_eq!(state.add_tracked_file(path.clone(), Ok(loaded(2, "two"))), Ok(()));
    assert_eq!(state.add_tracked_file(path, Err("not read".into())), Ok(()));
    assert_eq!(state.tracked_files.get("b.md").unwrap().html, "<p>one</p>");
    let other = b"/base/c.md".to_vec();
    assert_eq!(state.add_tracked_file(other, Err("not read".into())), Err("not read".into()));
    assert_eq!(state.key_of(b"/base/x/y"), "x/y");
    assert!(state.remove_tracked_file("b.md"));
    assert!(!state.remove_tracked_file("b.md"));
    assert_eq!(state.get_sorted_filenames(), vec!["a.md"]);
}

#[test]
fn moving_a_directory_keeps_every_file() {
    let mut state = workspace(&["docs/a.md", "docs/sub/b.md", "docsx/c.md", "d.md"]);
    let canonical = vec![(b"/base/new/a.md".to_vec(), b"/real/new/a.md".to_vec())];
    let mut paths = state.moved_paths("docs", "new");
    paths.sort();
    assert_eq!(paths, vec![b"/base/new/a.md".to_vec(), b"/base/new/sub/b.md".to_vec()]);
    state.move_tracked_prefix("docs", "new", &canonical);
    assert_eq!(
        state.get_sorted_filenames(),
        vec!["d.md", "docsx/c.md", "new/a.md", "new/sub/b.md"]
    );
    assert_eq!(state.tracked_files.get("new/a.md").unwrap().path, b"/real/new/a.md");
    assert_eq!(state.tracked_files.get("new/sub/b.md").unwrap().path, b"/base/new/sub/b.md");
    assert_eq!(state.tracked_files.get("new/a.md").unwrap().html, "<p>text</p>");
    state.move_tracked_prefix("new", "docs", &vec![]);
    assert_eq!(
        state.get_sorted_filenames(),
        vec!["d.md", "docs/a.md", "docs/sub/b.md", "docsx/c.md"]
    );
}

#[test]
fn moving_replaces_what_was_there_and_can_go_deeper() {
    let files = vec![found("/base/a/x.md", "moved"), found("/base/b/x.md", "old")];
    let mut state = MarkdownState::new(b"/base".to_vec(), files, true).ok().unwrap();
    state.move_tracked_prefix("a", "b", &vec![]);
    assert_eq!(state.get_sorted_filenames(), vec!["b/x.md"]);
    assert_eq!(state.tracked_files.get("b/x.md").unwrap().html, "<p>moved</p>");

    let files = vec![found("/base/a/x.md", "one"), found("/base/a/b/x.md", "two")];
    let mut state = MarkdownState::new(b"/base".to_vec(), files, true).ok().unwrap();
    state.move_tracked_prefix("a", "a/b", &vec![]);
    assert_eq!(state.get_sorted_filenames(), vec!["a/b/b/x.md", "a/b/x.md"]);
    assert_eq!(state.tracked_files.get("a/b/x.md").unwrap().html, "<p>one</p>");
    assert_eq!(state.tracked_files.get("a/b/b/x.md").unwrap().html, "<p>two</p>");

    let mut state = workspace(&["a.md"]);
    state.move_tracked_prefix("a.md", "b.md", &vec![]);
    assert_eq!(state.get_sorted_filenames(), vec!["b.md"]);
}

#[test]
fn removing_a_directory_counts_its_files() {
    let mut state = workspace(&["docs/a.md", "docs/sub/b.md", "docsx/c.md", "docs"]);
    assert_eq!(state.remove_tracked_prefix("docs"), 3);
    assert_eq!(state.remove_tracked_prefix("docs"), 0);
    assert_eq!(state.get_sorted_filenames(), vec!["docsx/c.md"]);
}

#[test]
fn removing_after_a_move_is_removing_at_once() {
    let mut moved = workspace(&["a/x.md", "b.md"]);
    moved.move_tracked_prefix("a", "c", &vec![]);
    moved.remove_tracked_prefix("c");
    let mut removed = workspace(&["a/x.md", "b.md"]);
    removed.remove_tracked_prefix("a");
    assert_eq!(moved.get_sorted_filenames(), removed.get_sorted_filenames());
}

#[test]
fn recent_entries_stay_in_the_configuration() {
    let entry = RecentEntry { path: "/a".into(), mode: "file".into(), last_opened: 3 };
    let config = AppConfig { recent: vec![entry], ..empty_config() };
    let state = MarkdownState::new_daemon_with_config(config);
    assert_eq!(state.config.unwrap().recent[0].last_opened, 3);
    assert!(state.daemon_mode && !state.is_directory_mode && state.mdlive_dir.is_none());
}
