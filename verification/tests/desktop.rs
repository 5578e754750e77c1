use mdlive::desktop::{
    expand_path, handle_window_new, restore_paths, window_reply, window_request, AppAction, AppEvent, AppState,
    OpenedUrl, WindowPaths, WindowRequest,
};
use mdlive::json::text_member;
use mdlive::menu::{
    build_menu, format_relative_time, home_prefix, menu_action, shorten_path, Menu, MenuAction,
    MenuEntry, NativeItem,
};
use mdlive::server::{
    get_server_url, is_mdlive_response, picker_label, picker_url, reopened_label, window_label,
    window_title, window_url, workspace_for_path, workspace_in_response, workspace_request,
    PathContent, SearchEvent, ServerSearch,
};
use mdlive::server::SearchEvent::{Answered, Deleted, Recorded};
use mdlive::state::{AppConfig, RecentEntry};
use mdlive::update::{
    address_to_open, check_for_updates, compare_release, newer_version, parse_version, DialogLevel,
};
use mdlive::util::{Entry, Listing};

fn config(recent: Vec<(&str, &str, u64)>, last: Vec<&str>) -> AppConfig {
    AppConfig {
        recent: recent
            .into_iter()
            .map(|(path, mode, last_opened)| RecentEntry {
                path: path.into(),
                mode: mode.into(),
                last_opened,
            })
            .collect(),
        last_workspaces: last.into_iter().map(String::from).collect(),
        last_browse_dir: None,
    }
}

#[test]
fn versions_are_read_part_by_part() {
    assert_eq!(parse_version("2.1.0"), (2, 1, 0));
    assert_eq!(parse_version("10.20.30.40"), (10, 20, 30));
    assert_eq!(parse_version("1"), (1, 0, 0));
    assert_eq!(parse_version(""), (0, 0, 0));
    assert_eq!(parse_version("1.x.3"), (1, 3, 0));
    assert_eq!(parse_version("1.2.3-rc1"), (1, 2, 0));
    assert_eq!(parse_version("4294967296.7"), (7, 0, 0));
    assert_eq!(parse_version("+1.+2"), (1, 2, 0));
}

#[test]
fn versions_are_compared_as_numbers() {
    assert!(newer_version((2, 10, 0), (2, 9, 9)));
    assert!(!newer_version((2, 9, 9), (2, 10, 0)));
    assert!(!newer_version((1, 1, 1), (1, 1, 1)));
    assert!(newer_version((1, 1, 2), (1, 1, 1)));
    assert!(newer_version((2, 0, 0), (1, 9, 9)));
}

#[test]
fn a_newer_release_is_offered() {
    let answer = br#"{"tag_name": "v2.2.0", "html_url": "https://example.org/r", "n": 1}"#;
    let dialog = check_for_updates("2.1.0", Some(answer));
    assert_eq!(dialog.title, "Update Available");
    assert_eq!(
        dialog.description,
        "v2.2.0 is available (you have v2.1.0).\n\nUpdate with:\n  brew upgrade --cask bearded-giant/tap/mdlive-app"
    );
    assert_eq!(dialog.level, DialogLevel::Info);
    assert_eq!(address_to_open(&dialog, true), Some(&"https://example.org/r".to_string()));
    assert_eq!(address_to_open(&dialog, false), None);

    let no_url = check_for_updates("2.1.0", Some(br#"{"tag_name": "3"}"#));
    assert_eq!(no_url.title, "Update Available");
    assert_eq!(address_to_open(&no_url, true), None);
}

#[test]
fn the_same_or_an_older_release_is_not_offered() {
    for answer in [
        &br#"{"tag_name": "v2.1.0"}"#[..],
        br#"{"tag_name": "2.0.9"}"#,
        br#"{"tag_name": 3}"#,
        br#"[]"#,
        br#"{}"#,
    ] {
        let dialog = check_for_updates("2.1.0", Some(answer));
        assert_eq!(dialog.title, "Up to Date");
        assert_eq!(dialog.description, "You're running the latest version (v2.1.0).");
        assert_eq!(dialog.level, DialogLevel::Info);
        assert_eq!(address_to_open(&dialog, true), None);
    }
    assert_eq!(compare_release("1.0", "v1.0.0", "u".into()).title, "Up to Date");
}

#[test]
fn failed_checks_are_reported() {
    let dialog = check_for_updates("2.1.0", None);
    assert_eq!((dialog.title.as_str(), dialog.description.as_str()), ("Update Check", "Could not reach GitHub."));
    assert_eq!(dialog.level, DialogLevel::Error);
    let dialog = check_for_updates("2.1.0", Some(b"<html>"));
    assert_eq!(dialog.description, "Could not parse response.");
    assert_eq!(dialog.level, DialogLevel::Error);
    assert_eq!(address_to_open(&dialog, true), None);
}

#[test]
fn json_members_are_read_if_they_are_texts() {
    assert_eq!(text_member(r#"{"a": "xä"}"#.as_bytes(), "a"), Some("xä".to_string()));
    assert_eq!(text_member(br#"{"a": 1}"#, "a"), None);
    assert_eq!(text_member(br#"["a"]"#, "a"), None);
    assert_eq!(text_member(b"{", "a"), None);
}

#[test]
fn relative_times_use_the_largest_unit() {
    let now = 1_000_000_000;
    let ago = |secs: u64| format_relative_time(now - secs, now);
    assert_eq!(format_relative_time(0, now), "");
    assert_eq!(ago(0), "now");
    assert_eq!(ago(59), "now");
    assert_eq!(ago(60), "1m");
    assert_eq!(ago(3599), "59m");
    assert_eq!(ago(3600), "1h");
    assert_eq!(ago(86_399), "23h");
    assert_eq!(ago(86_400), "1d");
    assert_eq!(ago(7 * 86_400 - 1), "6d");
    assert_eq!(ago(7 * 86_400), "1w");
    assert_eq!(ago(30 * 86_400 - 1), "4w");
    assert_eq!(ago(30 * 86_400), "1mo");
    assert_eq!(ago(365 * 86_400 - 1), "12mo");
    assert_eq!(ago(365 * 86_400), "1y");
    assert_eq!(ago(800 * 86_400), "2y");
    assert_eq!(format_relative_time(now + 500, now), "now");
}

#[test]
fn home_is_shortened_and_expanded() {
    assert_eq!(shorten_path("/home/u/x", "/home/u"), "~/x");
    assert_eq!(shorten_path("/home/u", "/home/u"), "~");
    assert_eq!(shorten_path("/home/user", "/home/u"), "~ser");
    assert_eq!(shorten_path("/other", "/home/u"), "/other");
    assert_eq!(shorten_path("/other", ""), "/other");
    assert_eq!(home_prefix(Some(b"/home/u")), "/home/u");
    assert_eq!(home_prefix(Some(b"/\xff")), "/\u{fffd}");
    assert_eq!(home_prefix(None), "");
    assert_eq!(expand_path("~/x", Some(b"/home/u")), b"/home/u/x");
    assert_eq!(expand_path("~/x", None), b"~/x");
    assert_eq!(expand_path("~x", Some(b"/home/u")), b"~x");
    assert_eq!(expand_path("/x", Some(b"/home/u")), b"/x");
    assert_eq!(
        expand_path(&shorten_path("/home/u/a/b", "/home/u"), Some(b"/home/u")),
        b"/home/u/a/b"
    );
}

fn entries(menu: &Menu) -> Vec<String> {
    menu.entries
        .iter()
        .map(|e| match e {
            MenuEntry::Item { id, label, accelerator } => match accelerator {
                Some(key) => format!("{id}={label} ({key})"),
                None => format!("{id}={label}"),
            },
            MenuEntry::Separator => "-".to_string(),
            MenuEntry::Native(item) => format!("{item:?}"),
            MenuEntry::Recent => "Recent".to_string(),
        })
        .collect()
}

#[test]
fn menus_have_their_entries() {
    let bar = build_menu(&config(vec![], vec![]), "", 0);
    let titles: Vec<&str> = bar.menus.iter().map(|m| m.title.as_str()).collect();
    assert_eq!(titles, vec!["mdlive", "File", "Edit", "View", "Window"]);
    assert_eq!(
        entries(&bar.menus[0]),
        vec![
            "About", "check_update=Check for Updates...", "-", "Services", "-", "Hide",
            "HideOthers", "ShowAll", "-", "Quit"
        ]
    );
    assert_eq!(
        entries(&bar.menus[1]),
        vec![
            "new_window=New Window (CmdOrCtrl+N)", "open=Open... (CmdOrCtrl+O)", "-", "Recent", "-",
            "close_tab=Close Tab (CmdOrCtrl+W)",
            "close_window_custom=Close Window (Shift+CmdOrCtrl+W)"
        ]
    );
    assert_eq!(
        entries(&bar.menus[2]),
        vec!["Undo", "Redo", "-", "Cut", "Copy", "Paste", "SelectAll"]
    );
    assert_eq!(entries(&bar.menus[3]), vec!["Fullscreen"]);
    assert_eq!(entries(&bar.menus[4]), vec!["Minimize", "Maximize"]);
    assert_eq!(bar.recent.title, "Open Recent");
    assert!(bar.recent.entries.is_empty());
    assert_eq!(NativeItem::Copy, NativeItem::Copy);
}

#[test]
fn recent_paths_are_listed_in_order() {
    let recent = vec![
        ("/home/u/notes", "directory", 940),
        ("/tmp/a.md", "file", 0),
        ("/tmp/b.md", "other", 1000),
    ];
    let bar = build_menu(&config(recent, vec![]), "/home/u", 1000);
    assert_eq!(
        entries(&bar.recent),
        vec![
            "recent:/home/u/notes=📁  ~/notes  —  1m",
            "recent:/tmp/a.md=📄  /tmp/a.md",
            "recent:/tmp/b.md=📄  /tmp/b.md  —  now",
            "-",
            "clear_recent=Clear Recent"
        ]
    );
}

#[test]
fn menu_entries_act() {
    assert!(matches!(menu_action("new_window"), MenuAction::NewWindow));
    assert!(matches!(menu_action("open"), MenuAction::Open));
    assert!(matches!(menu_action("clear_recent"), MenuAction::ClearRecent));
    assert!(matches!(menu_action("check_update"), MenuAction::CheckUpdate));
    assert!(matches!(menu_action("close_tab"), MenuAction::CloseTab));
    assert!(matches!(menu_action("close_window_custom"), MenuAction::CloseWindow));
    assert!(matches!(menu_action("recent"), MenuAction::Nothing));
    match menu_action("recent:/a:b") {
        MenuAction::OpenRecent(path) => assert_eq!(path, "/a:b"),
        _ => panic!("not opened"),
    }
}

#[test]
fn requests_and_addresses_hold_the_port() {
    assert_eq!(
        workspace_request(3000),
        "GET /api/workspace/current HTTP/1.1\r\nHost: 127.0.0.1:3000\r\nConnection: close\r\n\r\n"
    );
    assert_eq!(window_url(0), "http://127.0.0.1:0");
    assert_eq!(picker_url(65535), "http://127.0.0.1:65535/?picker=1");
    assert_eq!(get_server_url(None, 3000), "http://127.0.0.1:3000");
    assert_eq!(get_server_url(Some(4000), 3000), "http://127.0.0.1:4000");
    assert_eq!(window_label(3001), "win-3001");
    assert_eq!(picker_label(1700000000123), "picker-1700000000123");
    assert_eq!(reopened_label(7), "main-7");
    assert_eq!(window_title(b"/home/u/notes"), "mdlive - notes");
    assert_eq!(window_title(b"/"), "mdlive - /");
    assert_eq!(window_title(b"/a/\xff"), "mdlive - \u{fffd}");
}

#[test]
fn responses_name_the_workspace() {
    let ok = b"HTTP/1.1 200 OK\r\nA: b\r\n\r\n{\"success\": true, \"base_dir\": \"/w\"}";
    assert_eq!(workspace_in_response(ok), Some("/w".to_string()));
    assert!(is_mdlive_response(ok));
    assert_eq!(workspace_in_response(b"HTTP/1.1 200 OK\r\n{\"base_dir\": \"/w\"}"), None);
    assert_eq!(workspace_in_response(b"h\r\n\r\n{\"base_dir\": null}"), None);
    assert_eq!(workspace_in_response(b"h\r\n\r\nnot json"), None);
    assert_eq!(
        workspace_in_response(b"\r\n\r\n{\"base_dir\": \"/w\"}\r\n\r\nmore"),
        Some("/w".to_string())
    );
    assert_eq!(
        workspace_in_response(b"\xff\r\n\r\n{\"base_dir\": \"\xff\"}"),
        Some("\u{fffd}".to_string())
    );
    assert!(!is_mdlive_response(b"success"));
    assert!(!is_mdlive_response(&[0; 512]));
}

fn search(answers: &[SearchEvent]) -> ServerSearch {
    let mut search = ServerSearch::start();
    for event in answers {
        search = search.next(*event, 3000);
    }
    search
}

#[test]
fn a_running_server_is_found_on_either_port() {
    assert_eq!(search(&[]), ServerSearch::AskDefault);
    assert_eq!(search(&[Answered(true)]), ServerSearch::Found(3000));
    assert_eq!(search(&[Answered(false)]), ServerSearch::ReadPort);
    assert_eq!(search(&[Answered(false), Recorded(None)]), ServerSearch::NotFound);
    let asked = [Answered(false), Recorded(Some(3005))];
    assert_eq!(search(&asked), ServerSearch::AskRecorded(3005));
    assert_eq!(
        search(&[asked[0], asked[1], Answered(true)]),
        ServerSearch::Found(3005)
    );
    assert_eq!(search(&[asked[0], asked[1], Answered(false)]), ServerSearch::DeletePort);
    assert_eq!(
        search(&[asked[0], asked[1], Answered(false), Deleted]),
        ServerSearch::NotFound
    );
    assert_eq!(
        search(&[Answered(false), Recorded(Some(3000))]),
        ServerSearch::DeletePort
    );
    assert_eq!(search(&[Deleted]), ServerSearch::AskDefault);
}

#[test]
fn workspaces_are_files_or_directories_with_files() {
    let file = workspace_for_path(b"/a/b.md".to_vec(), &PathContent::File).ok().unwrap();
    assert_eq!(file.base_dir, b"/a");
    assert_eq!(file.files, vec![b"/a/b.md".to_vec()]);
    assert!(!file.is_directory_mode);
    let root = workspace_for_path(b"/".to_vec(), &PathContent::File).ok().unwrap();
    assert_eq!(root.base_dir, b".");

    let listing = Listing::Entries(vec![
        Entry::File(b"/a/z.md".to_vec()),
        Entry::File(b"/a/b.md".to_vec()),
        Entry::File(b"/a/c.rs".to_vec()),
    ]);
    let dir = workspace_for_path(b"/a".to_vec(), &PathContent::Directory(listing)).ok().unwrap();
    assert_eq!(dir.base_dir, b"/a");
    assert_eq!(dir.files, vec![b"/a/b.md".to_vec(), b"/a/z.md".to_vec()]);
    assert!(dir.is_directory_mode);

    let error = |content| workspace_for_path(b"/a".to_vec(), &content).err().unwrap();
    assert_eq!(
        error(PathContent::Directory(Listing::Entries(vec![]))),
        "no supported files in directory"
    );
    assert_eq!(error(PathContent::Directory(Listing::Failed("denied".into()))), "denied");
    assert_eq!(error(PathContent::Other), "path is not a file or directory");
}

#[test]
fn windows_make_up_the_session() {
    let mut windows = WindowPaths::new();
    windows.register_window_path("win-1", b"/link", Some(b"/real"));
    windows.register_window_path("win-2", b"/b", None);
    windows.register_window_path("win-3", b"/c", None);
    windows.unregister_window_path("win-3");
    windows.unregister_window_path("win-9");
    assert_eq!(windows.session_workspaces(None), vec!["/real", "/b"]);
    assert_eq!(windows.session_workspaces(Some("".into())), vec!["/real", "/b"]);
    assert_eq!(windows.session_workspaces(Some("/b".into())), vec!["/real", "/b"]);
    let all = windows.session_workspaces(Some("/d".into()));
    assert_eq!(all, vec!["/real", "/b", "/d"]);

    let mut config = config(vec![("/r", "file", 1)], vec!["/old"]);
    config.remember_session(all);
    assert_eq!(config.last_workspaces, vec!["/real", "/b", "/d"]);
    config.remember_browse_dir(b"/x/y.md", false);
    assert_eq!(config.last_browse_dir, Some("/x".to_string()));
    config.remember_browse_dir(b"/x/y", true);
    assert_eq!(config.last_browse_dir, Some("/x/y".to_string()));
    config.remember_browse_dir(b"/", false);
    assert_eq!(config.last_browse_dir, Some("".to_string()));
    config.clear_recent();
    assert!(config.recent.is_empty() && config.last_workspaces.len() == 3);
}

#[test]
fn existing_workspaces_are_restored() {
    let both = config(vec![("/r", "file", 1), ("/s", "file", 1)], vec!["/a", "/b", "/c"]);
    assert_eq!(restore_paths(&both, &vec![true, false, true], true), vec!["/a", "/c"]);
    assert_eq!(restore_paths(&both, &vec![false, false, false], true), vec!["/r"]);
    assert_eq!(restore_paths(&both, &vec![true], false), vec!["/a"]);
    assert!(restore_paths(&both, &vec![], false).is_empty());
    assert!(restore_paths(&config(vec![], vec![]), &vec![], true).is_empty());
}

#[test]
fn window_requests_are_answered() {
    let ask = |body: &str, home| {
        let body: serde_json::Value = serde_json::from_str(body).unwrap();
        match handle_window_new(&body, home) {
            WindowRequest::Answer(reply) => Err(reply.error),
            WindowRequest::Look(path) => Ok(path),
        }
    };
    let required = Err(Some("path required".to_string()));
    assert_eq!(ask("{}", None), required);
    assert_eq!(ask("[]", None), required);
    assert_eq!(ask(r#"{"path": ""}"#, None), required);
    assert_eq!(ask(r#"{"path": 3}"#, None), required);
    assert_eq!(ask(r#"{"path": "~/x"}"#, Some(&b"/home/u"[..])), Ok(b"/home/u/x".to_vec()));
    assert!(matches!(window_request("/x", None), WindowRequest::Look(_)));
    assert_eq!(window_reply(false, Ok(())).error, Some("path not found".to_string()));
    assert_eq!(window_reply(true, Ok(())).error, None);
    assert_eq!(window_reply(true, Err("closed".into())).error, Some("closed".to_string()));
}

#[test]
fn the_program_stays_until_it_is_told_to_quit() {
    let mut app = AppState::new();
    assert!(matches!(app.handle_event(AppEvent::ExitRequested(None)), AppAction::PreventExit));
    match app.handle_event(AppEvent::WindowDestroyed("win-1".into())) {
        AppAction::Unregister(label) => assert_eq!(label, "win-1"),
        _ => panic!("kept"),
    }
    assert!(matches!(
        app.handle_event(AppEvent::Reopen { has_visible_windows: false }),
        AppAction::OpenMainWindow
    ));
    assert!(matches!(
        app.handle_event(AppEvent::Reopen { has_visible_windows: true }),
        AppAction::Nothing
    ));
    assert!(matches!(app.handle_event(AppEvent::Other), AppAction::Nothing));
    assert!(matches!(
        app.handle_event(AppEvent::ExitRequested(Some(0))),
        AppAction::PersistAndQuit
    ));
    assert!(matches!(
        app.handle_event(AppEvent::WindowDestroyed("win-1".into())),
        AppAction::Nothing
    ));
    assert!(app.quitting);
}

#[test]
fn only_file_addresses_are_opened() {
    let url = |scheme: &str, path: Option<&[u8]>| OpenedUrl {
        scheme: scheme.into(),
        path: path.map(|p| p.to_vec()),
    };
    let urls = vec![
        url("file", Some(b"/a")),
        url("https", Some(b"/b")),
        url("file", None),
        url("file", Some(b"/c")),
    ];
    match AppState::new().handle_event(AppEvent::Opened(urls)) {
        AppAction::OpenPaths(paths) => assert_eq!(paths, vec![b"/a".to_vec(), b"/c".to_vec()]),
        _ => panic!("not opened"),
    }
}
