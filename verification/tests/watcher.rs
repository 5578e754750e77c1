use mdlive::state::{
    DiskVersion, FileContent, FoundFile, LoadedFile, MarkdownState, Rendering, ServerMessage,
};
use mdlive::time::FileTime;
use mdlive::watcher::{
    handle_file_event, rel_key, ChangeEvent, ChangeKind, EventPath, RenameKind, Step,
};

fn at(secs: u64) -> FileTime {
    FileTime::AfterEpoch { secs, nanos: 0 }
}

fn content(text: &str) -> FileContent {
    FileContent { text: text.into(), rendering: Rendering::Html(format!("<p>{text}</p>")) }
}

fn loaded(secs: u64, text: &str) -> LoadedFile {
    LoadedFile { modified: at(secs), created: None, content: content(text) }
}

fn found(path: &str) -> FoundFile {
    FoundFile {
        path: path.as_bytes().to_vec(),
        canonical: None,
        read: Ok(loaded(10, "text")),
    }
}

fn workspace(files: &[&str], directory: bool) -> MarkdownState {
    let files = files.iter().map(|f| found(&format!("/base/{f}"))).collect();
    MarkdownState::new(b"/base".to_vec(), files, directory).ok().unwrap()
}

fn gone(path: &str) -> EventPath {
    EventPath { path: path.as_bytes().to_vec(), is_dir: false, is_file: false, exists: false }
}

fn file(path: &str) -> EventPath {
    EventPath { is_file: true, exists: true, ..gone(path) }
}

fn dir(path: &str) -> EventPath {
    EventPath { is_dir: true, exists: true, ..gone(path) }
}

fn steps(kind: ChangeKind, paths: Vec<EventPath>) -> Vec<String> {
    let text = |p: &Vec<u8>| String::from_utf8_lossy(p).into_owned();
    handle_file_event(&ChangeEvent { kind, paths })
        .iter()
        .map(|s| match s {
            Step::DirMoved(a, b) => format!("moved {} {}", text(a), text(b)),
            Step::DirAdded(p) => format!("added {}", text(p)),
            Step::DirRemoved { path, folder } => format!("removed {} {folder}", text(path)),
            Step::FileChanged(p) => format!("changed {}", text(p)),
            Step::RemoveLater(p) => format!("later {}", text(p)),
            Step::ImageChanged => "image".to_string(),
        })
        .collect()
}

#[test]
fn renames_are_told_apart_by_what_stands_there() {
    let rename = ChangeKind::Rename;
    assert_eq!(steps(rename(RenameKind::Both), vec![gone("/a"), dir("/b")]), vec!["moved /a /b"]);
    assert_eq!(steps(rename(RenameKind::Both), vec![gone("/a"), file("/b")]), vec!["changed /b"]);
    assert!(steps(rename(RenameKind::Both), vec![dir("/a")]).is_empty());
    assert!(steps(rename(RenameKind::Both), vec![dir("/a"), dir("/b"), dir("/c")]).is_empty());
    assert_eq!(steps(rename(RenameKind::From), vec![file("/a"), gone("/b")]), vec!["later /a"]);
    assert!(steps(rename(RenameKind::From), vec![]).is_empty());
    assert_eq!(steps(rename(RenameKind::To), vec![dir("/a")]), vec!["added /a"]);
    assert_eq!(steps(rename(RenameKind::To), vec![gone("/a")]), vec!["changed /a"]);
    assert_eq!(steps(rename(RenameKind::Any), vec![dir("/a")]), vec!["added /a"]);
    assert_eq!(steps(rename(RenameKind::Any), vec![file("/a")]), vec!["changed /a"]);
    assert!(steps(rename(RenameKind::Any), vec![gone("/a")]).is_empty());
    assert!(steps(rename(RenameKind::Other), vec![file("/a.md")]).is_empty());
}

#[test]
fn other_events_are_told_apart_by_kind_of_file() {
    let md = || file("/base/a.md");
    assert_eq!(steps(ChangeKind::Create, vec![md()]), vec!["changed /base/a.md"]);
    assert_eq!(steps(ChangeKind::ModifyData, vec![md()]), vec!["changed /base/a.md"]);
    assert!(steps(ChangeKind::ModifyOther, vec![md()]).is_empty());
    assert_eq!(steps(ChangeKind::Remove { folder: false }, vec![md()]), vec!["later /base/a.md"]);
    assert!(steps(ChangeKind::Other, vec![md()]).is_empty());
    for kind in [
        ChangeKind::Create,
        ChangeKind::ModifyData,
        ChangeKind::ModifyOther,
        ChangeKind::Remove { folder: false },
    ] {
        assert_eq!(steps(kind, vec![file("/base/a.png")]), vec!["image"]);
    }
    assert!(steps(ChangeKind::Other, vec![file("/base/a.png")]).is_empty());
    assert_eq!(
        steps(ChangeKind::Remove { folder: true }, vec![gone("/base/sub"), gone("/base/b.txt")]),
        vec!["removed /base/sub true", "later /base/b.txt"]
    );
    assert!(steps(ChangeKind::Remove { folder: true }, vec![dir("/base/sub")]).is_empty());
    assert_eq!(steps(ChangeKind::Create, vec![dir("/base/sub")]), vec!["added /base/sub"]);
    assert!(steps(ChangeKind::Create, vec![file("/base/a.rs")]).is_empty());
    assert_eq!(
        steps(ChangeKind::Remove { folder: false }, vec![gone("/base/a.png")]),
        vec!["removed /base/a.png false"]
    );
}

#[test]
fn image_paths_that_are_not_utf8_do_not_count() {
    let p = EventPath { path: b"/base/\xff.png".to_vec(), ..file("") };
    let event = ChangeEvent { kind: ChangeKind::ModifyData, paths: vec![p] };
    assert!(handle_file_event(&event).is_empty());
}

#[test]
fn the_programs_own_directory_is_passed_over() {
    let paths = vec![file("/base/a.md"), file("/base/.mdlive/history/a.md")];
    assert!(steps(ChangeKind::Create, paths).is_empty());
}

#[test]
fn an_added_directory_brings_its_files() {
    let mut state = workspace(&["a.md"], true);
    let unread = FoundFile { read: Err("no".into()), ..found("/base/sub/c.md") };
    let message = state.handle_dir_add(vec![found("/base/sub/b.md"), unread]);
    assert_eq!(message, Some(ServerMessage::Reload));
    assert_eq!(state.get_sorted_filenames(), vec!["a.md", "sub/b.md"]);
    assert_eq!(state.handle_dir_add(vec![found("/base/sub/b.md")]), Some(ServerMessage::Reload));
    assert_eq!(state.get_sorted_filenames(), vec!["a.md", "sub/b.md"]);

    let mut single = workspace(&["a.md"], false);
    assert_eq!(single.handle_dir_add(vec![found("/base/sub/b.md")]), None);
    assert_eq!(single.get_sorted_filenames(), vec!["a.md"]);
}

#[test]
fn a_moved_directory_takes_its_files_along() {
    let mut state = workspace(&["old/a.md"], true);
    let message = state.handle_dir_move(
        b"/link/old",
        Some(b"/base/old"),
        b"/base/new",
        None,
        &vec![],
    );
    assert_eq!(message, Some(ServerMessage::Reload));
    assert_eq!(state.get_sorted_filenames(), vec!["new/a.md"]);

    let mut single = workspace(&["old/a.md"], false);
    assert_eq!(single.handle_dir_move(b"/base/old", None, b"/base/new", None, &vec![]), None);
    assert_eq!(single.get_sorted_filenames(), vec!["old/a.md"]);
}

#[test]
fn a_removed_directory_drops_its_files() {
    let mut state = workspace(&["sub/a.md", "b.md"], true);
    assert_eq!(state.handle_dir_remove(b"/base/x", None, false), None);
    assert_eq!(state.handle_dir_remove(b"/base/x", None, true), Some(ServerMessage::Reload));
    assert_eq!(state.handle_dir_remove(b"/base/sub", None, false), Some(ServerMessage::Reload));
    assert_eq!(state.get_sorted_filenames(), vec!["b.md"]);

    let mut single = workspace(&["sub/a.md"], false);
    assert_eq!(single.handle_dir_remove(b"/base/sub", None, true), None);
    assert_eq!(single.get_sorted_filenames(), vec!["sub/a.md"]);
}

#[test]
fn a_file_that_comes_back_is_not_dropped() {
    let mut state = workspace(&["a.md", "sub/b.md"], true);
    assert_eq!(state.handle_deferred_remove(b"/base/a.md", true), None);
    assert_eq!(state.get_sorted_filenames(), vec!["a.md", "sub/b.md"]);
    assert_eq!(state.handle_deferred_remove(b"/base/a.md", false), Some(ServerMessage::Reload));
    assert_eq!(state.handle_deferred_remove(b"/base/a.md", false), None);
    assert_eq!(state.handle_deferred_remove(b"/base/sub", false), Some(ServerMessage::Reload));
    assert!(state.get_sorted_filenames().is_empty());
}

#[test]
fn a_changed_file_is_refreshed_or_tracked() {
    let version = |secs| {
        Ok(DiskVersion { modified: at(secs), content: Ok(content("new")) })
    };
    let read = || Ok(loaded(1, "b"));
    let unread = || Err::<LoadedFile, String>("no".into());
    let mut state = workspace(&["a.md"], true);

    let a = || b"/base/a.md".to_vec();
    assert_eq!(
        state.handle_file_change(a(), None, version(10), unread()),
        Some(ServerMessage::Reload)
    );
    assert_eq!(state.tracked_files.get("a.md").unwrap().html, "<p>text</p>");
    assert_eq!(
        state.handle_file_change(b"/l/a.md".to_vec(), Some(a()), version(20), unread()),
        Some(ServerMessage::Reload)
    );
    assert_eq!(state.tracked_files.get("a.md").unwrap().html, "<p>new</p>");
    assert_eq!(state.handle_file_change(a(), None, Err("gone".into()), unread()), None);

    let b = || b"/base/b.md".to_vec();
    let nothing = || Err::<DiskVersion, String>("gone".into());
    assert_eq!(state.handle_file_change(b(), None, nothing(), unread()), None);
    assert_eq!(
        state.handle_file_change(b(), None, nothing(), read()),
        Some(ServerMessage::Reload)
    );
    assert_eq!(state.get_sorted_filenames(), vec!["a.md", "b.md"]);
    assert_eq!(state.handle_file_change(b"/base/c.rs".to_vec(), None, nothing(), read()), None);

    let mut single = workspace(&["a.md"], false);
    assert_eq!(single.handle_file_change(b(), None, nothing(), read()), None);
    assert_eq!(single.get_sorted_filenames(), vec!["a.md"]);
}

#[test]
fn keys_use_the_canonical_path() {
    assert_eq!(rel_key(b"/base", b"/link/a", Some(b"/base/a")), "a");
    assert_eq!(rel_key(b"/base", b"/base/b", None), "b");
}
