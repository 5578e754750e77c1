use mdlive::pages::{
    no_files_page, page_of_rendering, page_of_template_error, render_editor, render_empty_landing,
    render_file_with_default_flag, render_not_found, render_workspace_picker, serve_editor,
    serve_file, serve_html_root, serve_new_file_editor, FileRoute, Navigation, Page, PagePlan,
    PageVar, RootPage, Status,
};
use mdlive::state::{
    AppConfig, FileContent, FoundFile, LoadedFile, MarkdownState, RecentEntry, Rendering,
};
use mdlive::time::FileTime;
use minijinja::{Environment, Value};

fn found(path: &str, content: &str) -> FoundFile {
    FoundFile {
        path: path.as_bytes().to_vec(),
        canonical: None,
        read: Ok(LoadedFile {
            modified: FileTime::AfterEpoch { secs: 77, nanos: 1 },
            created: None,
            content: FileContent {
                text: content.into(),
                rendering: Rendering::Html(format!("<p>{content}</p>")),
            },
        }),
    }
}

fn workspace(files: &[(&str, &str)], directory: bool) -> MarkdownState {
    let files = files.iter().map(|(f, c)| found(&format!("/base/{f}"), c)).collect();
    MarkdownState::new(b"/base".to_vec(), files, directory).ok().unwrap()
}

fn daemon() -> MarkdownState {
    let recent = vec![
        RecentEntry { path: "/x".into(), mode: "directory".into(), last_opened: 5 },
        RecentEntry { path: "/y<".into(), mode: "file".into(), last_opened: 4 },
    ];
    MarkdownState::new_daemon_with_config(AppConfig {
        recent,
        last_workspaces: vec![],
        last_browse_dir: None,
    })
}

struct Template {
    source: String,
    error: Option<String>,
}

impl Template {
    fn error(&self) -> Option<&str> {
        self.error.as_deref()
    }
}

fn template(source: &str) -> Template {
    let error =
        Environment::new().template_from_named_str("main.html", source).err().map(|e| e.to_string());
    Template { source: source.into(), error }
}

fn nav() -> Navigation {
    Navigation {
        tree: "[{\"name\": \"t\"}]".into(),
        saved_tabs: "{\"tabs\": [1, 2]}".into(),
    }
}

fn sent(page: Page) -> (u16, String) {
    (page.status.code(), page.body)
}

fn value_of(var: PageVar) -> Value {
    match var {
        PageVar::Text(s) => Value::from(s),
        PageVar::Html(s) => Value::from_safe_string(s),
        PageVar::Flag(b) => Value::from(b),
        PageVar::Number(n) => Value::from(n),
        PageVar::Json(s) => serde_json::from_str(&s).unwrap(),
        PageVar::Recent(list) => list
            .into_iter()
            .map(|r| {
                Value::from_iter([
                    ("path", Value::from(r.path)),
                    ("mode", Value::from(r.mode)),
                    ("last_opened", Value::from(r.last_opened)),
                ])
            })
            .collect(),
    }
}

/// Carries a plan out and gives what is sent.
fn filled(template: &Template, plan: PagePlan) -> (u16, String) {
    sent(match plan {
        PagePlan::Done(page) => page,
        PagePlan::Fill { vars, status } => {
            let context: Value = vars.into_iter().map(|(n, var)| (n, value_of(var))).collect();
            let rendered = Environment::new()
                .render_named_str("main.html", &template.source, context)
                .map_err(|e| e.to_string());
            page_of_rendering(rendered, status)
        }
    })
}

const ALL: &str = "{{ content }}|{{ file_type }}|{{ file_modified }}|{{ 'yes' if mermaid_enabled else 'no' }}|\
{{ 'yes' if show_navigation else 'no' }}|{{ 'yes' if has_history else 'no' }}|{{ current_file|safe }}|{{ base_dir|safe }}|{{ 'yes' if daemon_mode else 'no' }}|\
{{ 'yes' if is_default_file else 'no' }}|{{ tree[0].name if tree is defined }}|{{ saved_tabs.tabs[1] if saved_tabs is defined }}|{{ 'yes' if is_landing else 'no' }}";

#[test]
fn root_leads_to_the_picker_the_landing_or_the_first_file() {
    let dir = workspace(&[("b.md", ""), ("a.md", "")], true);
    assert!(matches!(serve_html_root(&dir, Some("picker=1")), RootPage::Picker));
    assert!(matches!(serve_html_root(&dir, Some("x=1")), RootPage::Landing));
    let single = workspace(&[("b.md", ""), ("a.md", "")], false);
    match serve_html_root(&single, None) {
        RootPage::File(name) => assert_eq!(name, "a.md"),
        _ => panic!("no file"),
    }
    let empty = workspace(&[], false);
    assert!(matches!(serve_html_root(&empty, None), RootPage::Nothing));
    assert_eq!(sent(no_files_page()), (500, "No files available to serve".into()));
    let mut daemon = daemon();
    assert!(matches!(serve_html_root(&daemon, None), RootPage::Picker));
    assert!(daemon.switch_workspace(b"/d".to_vec(), vec![], false, None, None).is_ok());
    assert!(matches!(serve_html_root(&daemon, None), RootPage::Picker));
    assert!(daemon.switch_workspace(b"/d".to_vec(), vec![], true, None, None).is_ok());
    assert!(matches!(serve_html_root(&daemon, None), RootPage::Landing));
}

#[test]
fn addresses_lead_to_pages_images_or_nothing() {
    let state = workspace(&[("a.md", "")], true);
    assert_eq!(serve_file(&state, "a.md"), FileRoute::Page);
    assert_eq!(serve_file(&state, "b.md"), FileRoute::NotFound);
    assert_eq!(serve_file(&state, "i.PNG"), FileRoute::Image);
    assert_eq!(serve_file(&state, "a.rs"), FileRoute::NotFound);
}

#[test]
fn page_of_a_file_has_its_variables() {
    let all = template(ALL);
    let state = workspace(&[("sub/a.md", "*x*")], true);
    assert_eq!(
        filled(&all, render_file_with_default_flag(&state, "sub/a.md", true, all.error(), &nav())),
        (200, "<p>*x*</p>|markdown|77|no|yes|yes|sub/a.md|/base|no|yes|t|2|no".into())
    );
    let single = workspace(&[("a.json", "<")], false);
    assert_eq!(
        filled(&all, render_file_with_default_flag(&single, "a.json", false, all.error(), &nav())),
        (
            200,
            "<pre><code class=\"language-json\">&lt;</code></pre>|json|77|no|no|yes|a.json|/base|no|no|||no"
                .into()
        )
    );
    assert_eq!(
        filled(&all, render_file_with_default_flag(&state, "b.md", true, all.error(), &nav())),
        (404, "File not found".into())
    );
}

#[test]
fn diagrams_are_enabled_for_the_kinds_that_hold_them() {
    let text = "class=\"language-mermaid\"";
    let state =
        workspace(&[("a.md", text), ("b.md", "none"), ("c.txt", text), ("d.mmd", text)], true);
    let flag = |name: &str| {
        let only = template("{{ 'yes' if mermaid_enabled else 'no' }}");
        filled(&only, render_file_with_default_flag(&state, name, false, only.error(), &nav())).1
    };
    assert_eq!(flag("a.md"), "yes");
    assert_eq!(flag("b.md"), "no");
    assert_eq!(flag("c.txt"), "no");
    assert_eq!(flag("d.mmd"), "no");
}

#[test]
fn landing_page_has_its_variables() {
    let state = workspace(&[], true);
    let all = template(ALL);
    let (status, body) = filled(&all, render_empty_landing(&state, all.error(), &nav()));
    assert_eq!(status, 200);
    assert_eq!(
        body,
        "<div class=\"landing-page\"><h2>Pick a file to get started</h2>\
         <p>Select a file from the sidebar, or press <code>n</code> to create a new one.</p>\
         </div>|markdown||no|yes|no||/base|no|yes|t|2|yes"
    );
}

#[test]
fn picker_lists_recent_workspaces() {
    let source = template("{{ 'yes' if daemon_mode else 'no' }} {{ 'yes' if no_workspace else 'no' }} {{ 'yes' if show_navigation else 'no' }} [{{ base_dir|safe }}]\
{% for r in recent_workspaces %} {{ r.path|safe }}:{{ r.mode }}:{{ r.last_opened + 1 }}{% endfor %}");
    assert_eq!(
        filled(&source, render_workspace_picker(&daemon(), source.error())),
        (200, "yes yes no [] /x:directory:6 /y<:file:5".into())
    );
    let none = workspace(&[], false);
    let count = template("{{ recent_workspaces|length }}");
    assert_eq!(
        filled(&count, render_workspace_picker(&none, count.error())),
        (200, "0".into())
    );
}

#[test]
fn editor_shows_raw_content() {
    let source = template("{{ 'yes' if editor_mode else 'no' }}|{{ 'yes' if new_file_mode else 'no' }}|{{ file_type }}|{{ file_modified }}|\
{{ raw_content }}|{{ current_file|safe }}|{{ 'yes' if has_history else 'no' }}|{{ 'yes' if show_navigation else 'no' }}|{{ tree[0].name }}");
    let state = workspace(&[("a.md", "x")], true);
    assert_eq!(
        filled(&source, serve_editor(&state, "a.md", Some("<raw>"), source.error(), &nav())),
        (200, "yes|no|markdown|77|&lt;raw&gt;|a.md|yes|yes|t".into())
    );
    assert_eq!(
        filled(&source, serve_editor(&state, "a.md", None, source.error(), &nav())),
        (200, "yes|no|markdown|77||a.md|yes|yes|t".into())
    );
    let path = template("{{ unavailable_path }}");
    assert_eq!(
        filled(&path, serve_editor(&state, "b.md", Some("x"), path.error(), &nav())),
        (404, "b.md".into())
    );
    assert_eq!(
        filled(&source, render_editor(&state, "a.md", "x", true, source.error(), &nav())),
        (200, "yes|yes|markdown|0|x|a.md|no|yes|t".into())
    );
}

#[test]
fn new_files_are_for_directories() {
    let source = template("{{ current_file|safe }}|{{ 'yes' if new_file_mode else 'no' }}|{{ raw_content }}|{{ file_modified }}");
    let state = workspace(&[("new.md", "x")], true);
    assert_eq!(
        filled(&source, serve_new_file_editor(&state, "", source.error(), &nav())),
        (200, "new.md|yes||0".into())
    );
    assert_eq!(
        filled(&source, serve_new_file_editor(&state, "sub", source.error(), &nav())),
        (200, "sub/new.md|yes||0".into())
    );
    let single = workspace(&[], false);
    assert_eq!(
        filled(&source, serve_new_file_editor(&single, "", source.error(), &nav())),
        (400, "New file only available in directory mode".into())
    );
}

#[test]
fn missing_files_are_reported_with_their_escaped_path() {
    let source = template("{{ content }}#{{ 'yes' if show_navigation else 'no' }}#{{ 'yes' if tree is defined else 'no' }}");
    let state = workspace(&[], true);
    assert_eq!(
        filled(&source, render_not_found(&state, "<a>&\"b\"", source.error(), &nav())),
        (
            404,
            "<div class=\"not-found-page\"><h2>File unavailable</h2>\
             <p><code>&lt;a&gt;&amp;&quot;b&quot;</code> was moved, renamed, or deleted.</p>\
             <p>Pick a file from the sidebar, or \
             <a href=\"/\">open the workspace default</a>.</p></div>#yes#yes"
                .into()
        )
    );
    let single = workspace(&[], false);
    let (status, body) = filled(&source, render_not_found(&single, "a", source.error(), &nav()));
    assert_eq!(status, 404);
    assert!(body.ends_with("<p><a href=\"/\">Reload the workspace</a>.</p></div>#no#no"));
}

#[test]
fn broken_templates_are_reported() {
    let state = workspace(&[("a.md", "x")], true);
    let broken = template("{% if %}");
    for plan in [
        render_empty_landing(&state, broken.error(), &nav()),
        render_workspace_picker(&state, broken.error()),
        render_file_with_default_flag(&state, "a.md", false, broken.error(), &nav()),
        render_file_with_default_flag(&state, "b.md", false, broken.error(), &nav()),
        render_editor(&state, "a.md", "", false, broken.error(), &nav()),
        render_not_found(&state, "a.md", broken.error(), &nav()),
    ] {
        let (status, body) = filled(&broken, plan);
        assert_eq!(status, 500);
        assert!(body.starts_with("Template error: syntax error"), "{body}");
    }
    let failing = template("{{ 1 / 0 }}{{ content.x.y }}");
    let (status, body) = filled(&failing, render_not_found(&state, "a.md", failing.error(), &nav()));
    assert_eq!(status, 500);
    assert!(body.starts_with("Rendering error: "), "{body}");
}

#[test]
fn outcomes_become_pages() {
    assert_eq!(sent(page_of_template_error("e")), (500, "Template error: e".into()));
    assert_eq!(
        sent(page_of_rendering(Err("e".into()), Status::Success)),
        (500, "Rendering error: e".into())
    );
    assert_eq!(sent(page_of_rendering(Ok("b".into()), Status::NotFound)), (404, "b".into()));
    assert_eq!(Status::BadRequest.code(), 400);
}
