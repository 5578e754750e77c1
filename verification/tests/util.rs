use mdlive::util::{
    file_type_class, guess_image_content_type, is_csv_file, is_image_file, is_json_file,
    is_markdown_file, is_mdlive_dir, is_mdlive_path, is_mermaid_file, is_supported_file,
    is_text_file, is_toml_file, is_yaml_file, scan_directories, scan_supported_files, Entry,
    Listing,
};

#[test]
fn test_is_markdown_file() {
    assert!(is_markdown_file(b"test.md"));
    assert!(is_markdown_file(b"/path/to/file.md"));
    assert!(is_markdown_file(b"test.markdown"));
    assert!(is_markdown_file(b"/path/to/file.markdown"));
    assert!(is_markdown_file(b"test.MD"));
    assert!(is_markdown_file(b"test.Md"));
    assert!(is_markdown_file(b"test.MARKDOWN"));
    assert!(is_markdown_file(b"test.MarkDown"));

    assert!(!is_markdown_file(b"test.txt"));
    assert!(!is_markdown_file(b"test.rs"));
    assert!(!is_markdown_file(b"test.html"));
    assert!(!is_markdown_file(b"test"));
    assert!(!is_markdown_file(b"README"));
}

#[test]
fn test_is_image_file() {
    assert!(is_image_file("test.png"));
    assert!(is_image_file("test.jpg"));
    assert!(is_image_file("test.jpeg"));
    assert!(is_image_file("test.gif"));
    assert!(is_image_file("test.svg"));
    assert!(is_image_file("test.webp"));
    assert!(is_image_file("test.bmp"));
    assert!(is_image_file("test.ico"));

    assert!(is_image_file("test.PNG"));
    assert!(is_image_file("test.JPG"));
    assert!(is_image_file("test.JPEG"));

    assert!(is_image_file("/path/to/image.png"));
    assert!(is_image_file("./images/photo.jpg"));

    assert!(!is_image_file("test.txt"));
    assert!(!is_image_file("test.md"));
    assert!(!is_image_file("test.rs"));
    assert!(!is_image_file("test"));
}

#[test]
fn test_guess_image_content_type() {
    assert_eq!(guess_image_content_type("test.png"), "image/png");
    assert_eq!(guess_image_content_type("test.jpg"), "image/jpeg");
    assert_eq!(guess_image_content_type("test.jpeg"), "image/jpeg");
    assert_eq!(guess_image_content_type("test.gif"), "image/gif");
    assert_eq!(guess_image_content_type("test.svg"), "image/svg+xml");
    assert_eq!(guess_image_content_type("test.webp"), "image/webp");
    assert_eq!(guess_image_content_type("test.bmp"), "image/bmp");
    assert_eq!(guess_image_content_type("test.ico"), "image/x-icon");

    assert_eq!(guess_image_content_type("test.PNG"), "image/png");
    assert_eq!(guess_image_content_type("test.JPG"), "image/jpeg");

    assert_eq!(
        guess_image_content_type("test.xyz"),
        "application/octet-stream"
    );
    assert_eq!(guess_image_content_type("test"), "application/octet-stream");
}

#[test]
fn test_is_text_file() {
    assert!(is_text_file(b"test.txt"));
    assert!(is_text_file(b"/path/to/file.txt"));
    assert!(is_text_file(b"test.TXT"));
    assert!(is_text_file(b"test.Txt"));
    assert!(!is_text_file(b"test.md"));
    assert!(!is_text_file(b"test.json"));
    assert!(!is_text_file(b"test"));
}

#[test]
fn test_is_json_file() {
    assert!(is_json_file(b"test.json"));
    assert!(is_json_file(b"/path/to/file.json"));
    assert!(is_json_file(b"test.JSON"));
    assert!(is_json_file(b"test.Json"));
    assert!(!is_json_file(b"test.md"));
    assert!(!is_json_file(b"test.txt"));
    assert!(!is_json_file(b"test"));
}

#[test]
fn test_is_csv_file() {
    assert!(is_csv_file(b"test.csv"));
    assert!(is_csv_file(b"/path/to/file.csv"));
    assert!(is_csv_file(b"test.CSV"));
    assert!(is_csv_file(b"test.Csv"));
    assert!(!is_csv_file(b"test.tsv"));
    assert!(!is_csv_file(b"test.md"));
    assert!(!is_csv_file(b"test"));
}

#[test]
fn test_is_yaml_file() {
    assert!(is_yaml_file(b"test.yaml"));
    assert!(is_yaml_file(b"test.yml"));
    assert!(is_yaml_file(b"test.YAML"));
    assert!(is_yaml_file(b"test.Yml"));
    assert!(is_yaml_file(b"/path/to/file.yaml"));
    assert!(!is_yaml_file(b"test.yamll"));
    assert!(!is_yaml_file(b"test.json"));
    assert!(!is_yaml_file(b"test"));
}

#[test]
fn test_is_toml_file() {
    assert!(is_toml_file(b"test.toml"));
    assert!(is_toml_file(b"/path/to/Cargo.toml"));
    assert!(is_toml_file(b"test.TOML"));
    assert!(is_toml_file(b"test.Toml"));
    assert!(!is_toml_file(b"test.tml"));
    assert!(!is_toml_file(b"test.ini"));
    assert!(!is_toml_file(b"test"));
}

#[test]
fn test_is_mermaid_file() {
    assert!(is_mermaid_file(b"test.mmd"));
    assert!(is_mermaid_file(b"/path/to/diagram.mmd"));
    assert!(is_mermaid_file(b"test.MMD"));
    assert!(is_mermaid_file(b"test.Mmd"));
    assert!(!is_mermaid_file(b"test.mermaid"));
    assert!(!is_mermaid_file(b"test.md"));
    assert!(!is_mermaid_file(b"test"));
}

#[test]
fn test_is_supported_file() {
    assert!(is_supported_file(b"test.md"));
    assert!(is_supported_file(b"test.markdown"));
    assert!(is_supported_file(b"test.txt"));
    assert!(is_supported_file(b"test.json"));
    assert!(is_supported_file(b"test.JSON"));
    assert!(is_supported_file(b"test.csv"));
    assert!(is_supported_file(b"test.yaml"));
    assert!(is_supported_file(b"test.yml"));
    assert!(is_supported_file(b"test.toml"));
    assert!(!is_supported_file(b"test.rs"));
    assert!(!is_supported_file(b"test.html"));
    assert!(!is_supported_file(b"test"));
}

#[test]
fn test_file_type_class() {
    assert_eq!(file_type_class("test.md"), "markdown");
    assert_eq!(file_type_class("test.markdown"), "markdown");
    assert_eq!(file_type_class("test.json"), "json");
    assert_eq!(file_type_class("test.JSON"), "json");
    assert_eq!(file_type_class("test.txt"), "plaintext");
    assert_eq!(file_type_class("test.TXT"), "plaintext");
    assert_eq!(file_type_class("test.csv"), "csv");
    assert_eq!(file_type_class("test.CSV"), "csv");
    assert_eq!(file_type_class("test.yaml"), "yaml");
    assert_eq!(file_type_class("test.yml"), "yaml");
    assert_eq!(file_type_class("test.toml"), "toml");
    assert_eq!(file_type_class("test.TOML"), "toml");
    assert_eq!(file_type_class("test.mmd"), "mermaid");
    assert_eq!(file_type_class("test.MMD"), "mermaid");
    assert_eq!(file_type_class("test.rs"), "unknown");
    assert_eq!(file_type_class("test"), "unknown");
}

fn file(path: &str) -> Entry {
    Entry::File(path.as_bytes().to_vec())
}

fn directory(path: &str, entries: Vec<Entry>) -> Entry {
    Entry::Directory(path.as_bytes().to_vec(), Listing::Entries(entries))
}

fn scan(entries: Vec<Entry>) -> Vec<String> {
    scan_supported_files(&Listing::Entries(entries))
        .expect("Failed to scan")
        .into_iter()
        .map(|p| String::from_utf8(p).unwrap())
        .collect()
}

#[test]
fn test_scan_supported_files_empty_directory() {
    let result = scan(vec![]);
    assert_eq!(result.len(), 0);
}

#[test]
fn test_scan_supported_files_finds_all_types() {
    let result = scan(vec![
        file("/tmp/w/test1.md"),
        file("/tmp/w/test2.markdown"),
        file("/tmp/w/test3.txt"),
        file("/tmp/w/test4.json"),
        file("/tmp/w/test5.csv"),
        file("/tmp/w/test6.yaml"),
        file("/tmp/w/test7.yml"),
        file("/tmp/w/test8.toml"),
        file("/tmp/w/README"),
        file("/tmp/w/test.rs"),
    ]);
    assert_eq!(result.len(), 8);

    let filenames: Vec<_> = result
        .iter()
        .map(|p| p.rsplit('/').next().unwrap())
        .collect();
    assert!(filenames.contains(&"test1.md"));
    assert!(filenames.contains(&"test2.markdown"));
    assert!(filenames.contains(&"test3.txt"));
    assert!(filenames.contains(&"test4.json"));
    assert!(filenames.contains(&"test5.csv"));
    assert!(filenames.contains(&"test6.yaml"));
    assert!(filenames.contains(&"test7.yml"));
    assert!(filenames.contains(&"test8.toml"));
}

#[test]
fn test_scan_supported_files_includes_subdirectories() {
    let result = scan(vec![
        file("/tmp/w/root.md"),
        directory("/tmp/w/subdir", vec![file("/tmp/w/subdir/nested.json")]),
    ]);
    assert_eq!(result.len(), 2);

    let filenames: Vec<_> = result
        .iter()
        .map(|p| p.rsplit('/').next().unwrap())
        .collect();
    assert!(filenames.contains(&"root.md"));
    assert!(filenames.contains(&"nested.json"));
}

#[test]
fn test_scan_supported_files_case_insensitive() {
    let result = scan(vec![
        file("/tmp/w/test1.md"),
        file("/tmp/w/test2.MD"),
        file("/tmp/w/test3.TXT"),
        file("/tmp/w/test4.JSON"),
    ]);
    assert_eq!(result.len(), 4);
}

#[test]
fn test_scan_supported_files_deep_nesting() {
    let result = scan(vec![
        file("/tmp/w/root.md"),
        directory(
            "/tmp/w/level1",
            vec![
                file("/tmp/w/level1/level1.txt"),
                directory(
                    "/tmp/w/level1/level2",
                    vec![file("/tmp/w/level1/level2/level2.json")],
                ),
            ],
        ),
    ]);
    assert_eq!(result.len(), 3);
}

#[test]
fn scan_sorts_by_components_not_by_bytes() {
    let result = scan(vec![
        file("/w/b.md"),
        file("/w/a.md"),
        directory("/w/a", vec![file("/w/a/z.md")]),
    ]);
    assert_eq!(result, ["/w/a/z.md", "/w/a.md", "/w/b.md"]);

    let mut by_std: Vec<std::path::PathBuf> =
        ["/w/b.md", "/w/a.md", "/w/a/z.md"].iter().map(std::path::PathBuf::from).collect();
    by_std.sort();
    let by_std: Vec<String> = by_std.iter().map(|p| p.display().to_string()).collect();
    assert_eq!(result, by_std);
}

#[test]
fn scan_passes_over_own_directory_and_other_entries() {
    let result = scan(vec![
        directory("/w/.mdlive", vec![file("/w/.mdlive/notes.md")]),
        Entry::Other(b"/w/socket.md".to_vec()),
        file("/w/kept.md"),
    ]);
    assert_eq!(result, ["/w/kept.md"]);
}

#[test]
fn scan_stops_at_the_first_error() {
    let failed = scan_supported_files(&Listing::Entries(vec![
        file("/w/a.md"),
        Entry::Directory(b"/w/sub".to_vec(), Listing::Failed("permission denied".to_string())),
        Entry::Failed("entry gone".to_string()),
    ]));
    assert_eq!(failed, Err("permission denied".to_string()));

    let failed = scan_supported_files(&Listing::Entries(vec![Entry::Failed("entry gone".to_string())]));
    assert_eq!(failed, Err("entry gone".to_string()));

    let failed = scan_supported_files(&Listing::Failed("no such directory".to_string()));
    assert_eq!(failed, Err("no such directory".to_string()));

    let skipped = scan(vec![
        Entry::Directory(b"/w/.mdlive".to_vec(), Listing::Failed("permission denied".to_string())),
        file("/w/a.md"),
    ]);
    assert_eq!(skipped, ["/w/a.md"]);
}

#[test]
fn directories_are_listed_below_the_base() {
    let tree = Listing::Entries(vec![
        directory("/w/z", vec![directory("/w/z/empty", vec![]), file("/w/z/a.md")]),
        Entry::Failed("gone".to_string()),
        Entry::Directory(b"/w/locked".to_vec(), Listing::Failed("permission denied".to_string())),
        directory("/w/.mdlive", vec![directory("/w/.mdlive/history", vec![])]),
        directory("/w/a", vec![]),
    ]);
    assert_eq!(scan_directories(b"/w", &tree), [".mdlive", ".mdlive/history", "a", "locked", "z", "z/empty"]);
    assert_eq!(scan_directories(b"/elsewhere", &tree), Vec::<String>::new());
}

#[test]
fn invalid_utf8_in_a_directory_name_is_replaced() {
    let tree = Listing::Entries(vec![Entry::Directory(
        b"/w/caf\xff".to_vec(),
        Listing::Entries(vec![]),
    )]);
    assert_eq!(scan_directories(b"/w", &tree), ["caf\u{fffd}"]);
}

#[test]
fn own_paths_are_recognised() {
    assert!(is_mdlive_path(b"/w/.mdlive/history/a.md"));
    assert!(is_mdlive_path(b".mdlive"));
    assert!(!is_mdlive_path(b"/w/x.mdlive/a.md"));
    assert!(is_mdlive_dir(b"/w/.mdlive/"));
    assert!(!is_mdlive_dir(b"/w/.mdlive/history"));
    assert!(!is_mdlive_dir(b"/"));
}

#[test]
fn hidden_names_and_odd_dots_have_the_extension_of_std() {
    for name in [
        ".md", "a.b.md", "md", "x.", "dir.md/", "dir.md/.", "..md", "...md", "a/..", "a.md/..",
        "/", "", ".", "..", "x.MD//", "./.md", "\u{e9}.md", "a.\u{e9}",
    ] {
        let expected = std::path::Path::new(name)
            .extension()
            .and_then(|e| e.to_str())
            .map(|e| e.eq_ignore_ascii_case("md") || e.eq_ignore_ascii_case("markdown"))
            .unwrap_or(false);
        assert_eq!(is_markdown_file(name.as_bytes()), expected, "{name:?}");
    }
}

#[test]
fn image_extension_uses_unicode_lower_case() {
    assert!(!is_image_file("a.\u{130}co"));
    assert!(is_image_file("x/\u{e9}.WebP"));
    assert_eq!(guess_image_content_type("x/\u{e9}.WebP"), "image/webp");
    assert_eq!(guess_image_content_type("a.png/.."), "application/octet-stream");
}

#[test]
fn the_case_of_an_extension_does_not_matter() {
    for (a, b) in [("x.PNG", "y.png"), ("x.\u{3a3}A", "y.\u{3a3}a"), ("x.JsOn", "y.json"), ("x", "y")] {
        assert_eq!(guess_image_content_type(a), guess_image_content_type(b));
        assert_eq!(is_image_file(a), is_image_file(b));
        assert_eq!(file_type_class(a), file_type_class(b));
    }
}
