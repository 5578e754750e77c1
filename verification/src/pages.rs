//! The pages that the server sends.

use vstd::prelude::*;

use crate::state::{AppConfig, MarkdownState, RecentEntry};
#[allow(unused_imports)]
use crate::order::{sorted, text_order, views};
#[allow(unused_imports)]
use crate::state::{StateView, TrackedView};
use crate::text::{from_utf8_lossy, has_text, html_escape, joined, same_text};
use crate::util::{file_type_class, is_image_file, is_supported_file};

verus! {

/// The status of a response.
#[derive(Clone, Copy, Debug, PartialEq, Eq, Structural)]
pub enum Status {
    Success,
    BadRequest,
    NotFound,
    InternalServerError,
}

impl Status {
    /// The number of a status.
    pub fn code(self) -> (code: u16)
        ensures
            code == (match self {
                Status::Success => 200u16,
                Status::BadRequest => 400u16,
                Status::NotFound => 404u16,
                Status::InternalServerError => 500u16,
            }),
    {
        match self {
            Status::Success => 200,
            Status::BadRequest => 400,
            Status::NotFound => 404,
            Status::InternalServerError => 500,
        }
    }
}

/// A response: its status and the HTML that is sent.
pub struct Page {
    pub status: Status,
    pub body: String,
}

/// The view of a [`Page`].
pub struct PageView {
    pub status: Status,
    pub body: Seq<char>,
}

impl View for Page {
    type V = PageView;

    open spec fn view(&self) -> PageView {
        PageView { status: self.status, body: self.body@ }
    }
}

/// A variable that a template can use.
pub enum PageVar {
    Text(String),
    /// A text that is HTML already and must not be escaped.
    Html(String),
    Flag(bool),
    Number(u64),
    /// A value written as JSON.
    Json(String),
    Recent(Vec<RecentEntry>),
}

/// The view of a [`RecentEntry`].
pub struct RecentView {
    pub path: Seq<char>,
    pub mode: Seq<char>,
    pub last_opened: u64,
}

impl View for RecentEntry {
    type V = RecentView;

    open spec fn view(&self) -> RecentView {
        RecentView { path: self.path@, mode: self.mode@, last_opened: self.last_opened }
    }
}

/// The view of a [`PageVar`].
pub enum VarView {
    Text(Seq<char>),
    Html(Seq<char>),
    Flag(bool),
    Number(u64),
    Json(Seq<char>),
    Recent(Seq<RecentView>),
}

impl View for PageVar {
    type V = VarView;

    open spec fn view(&self) -> VarView {
        match *self {
            PageVar::Text(s) => VarView::Text(s@),
            PageVar::Html(s) => VarView::Html(s@),
            PageVar::Flag(b) => VarView::Flag(b),
            PageVar::Number(n) => VarView::Number(n),
            PageVar::Json(s) => VarView::Json(s@),
            PageVar::Recent(list) => VarView::Recent(views(list@)),
        }
    }
}

/// The names and views of variables.
pub open spec fn vars_view(vars: Seq<(String, PageVar)>) -> Seq<(Seq<char>, VarView)> {
    vars.map_values(|v: (String, PageVar)| (v.0@, v.1@))
}

/// What the sidebar shows, each written as JSON: the tree of files and
/// directories, and the tabs that were open.
pub struct Navigation {
    pub tree: String,
    pub saved_tabs: String,
}

/// The view of an optional text.
pub open spec fn option_view(text: Option<&str>) -> Option<Seq<char>> {
    match text {
        Some(text) => Some(text@),
        None => None,
    }
}

/// A page that says that the template is broken.
pub open spec fn template_error_page(error: Seq<char>) -> PageView {
    PageView { status: Status::InternalServerError, body: "Template error: "@ + error }
}

/// The page that filling in the template gave.
pub open spec fn rendering_page(rendered: Result<Seq<char>, Seq<char>>, status: Status) -> PageView {
    match rendered {
        Ok(body) => PageView { status, body },
        Err(error) => PageView {
            status: Status::InternalServerError,
            body: "Rendering error: "@ + error,
        },
    }
}

/// What is to be sent.
pub enum PagePlan {
    /// This page.
    Done(Page),
    /// What filling in the template with these variables gives, as
    /// [`page_of_rendering`] has it.
    Fill { vars: Vec<(String, PageVar)>, status: Status },
}

/// The view of a [`PagePlan`].
pub enum PlanView {
    Done(PageView),
    Fill { vars: Seq<(Seq<char>, VarView)>, status: Status },
}

impl View for PagePlan {
    type V = PlanView;

    open spec fn view(&self) -> PlanView {
        match *self {
            PagePlan::Done(page) => PlanView::Done(page@),
            PagePlan::Fill { vars, status } => PlanView::Fill { vars: vars_view(vars@), status },
        }
    }
}

/// The page that a plan comes to once it is known what filling in the template
/// gives.
pub open spec fn planned_page(plan: PlanView, rendered: Result<Seq<char>, Seq<char>>) -> PageView {
    match plan {
        PlanView::Done(page) => page,
        PlanView::Fill { status, .. } => rendering_page(rendered, status),
    }
}

/// The plan to fill in the template with variables, with the given status where
/// all goes well. `template_error` is the error with which compiling the template
/// failed, if it did: it is then reported.
pub open spec fn plan_from(
    template_error: Option<Seq<char>>,
    vars: Seq<(Seq<char>, VarView)>,
    status: Status,
) -> PlanView {
    match template_error {
        Some(error) => PlanView::Done(template_error_page(error)),
        None => PlanView::Fill { vars, status },
    }
}

/// A page that says that the template is broken.
pub fn page_of_template_error(error: &str) -> (page: Page)
    ensures
        page@ == template_error_page(error@),
{
    Page { status: Status::InternalServerError, body: joined("Template error: ", error) }
}

/// The page that filling in the template gave.
pub fn page_of_rendering(rendered: Result<String, String>, status: Status) -> (page: Page)
    ensures
        page@ == rendering_page(
            match rendered {
                Ok(text) => Ok(text@),
                Err(error) => Err(error@),
            },
            status,
        ),
{
    match rendered {
        Ok(body) => Page { status, body },
        Err(error) => Page {
            status: Status::InternalServerError,
            body: joined("Rendering error: ", error.as_str()),
        },
    }
}

fn make_plan(template_error: Option<&str>, vars: Vec<(String, PageVar)>, status: Status) -> (plan:
    PagePlan)
    ensures
        plan@ == plan_from(option_view(template_error), vars_view(vars@), status),
{
    match template_error {
        Some(error) => PagePlan::Done(page_of_template_error(error)),
        None => PagePlan::Fill { vars, status },
    }
}

fn put(vars: &mut Vec<(String, PageVar)>, name: &str, var: PageVar)
    ensures
        vars_view(final(vars)@) == vars_view(old(vars)@).push((name@, var@)),
{
    let ghost held = vars@;
    vars.push((name.to_owned(), var));
    assert(vars_view(vars@) =~= vars_view(held).push((name@, var@)));
}

fn text_var(s: &str) -> (var: PageVar)
    ensures
        var@ == VarView::Text(s@),
{
    PageVar::Text(s.to_owned())
}

fn no_vars() -> (vars: Vec<(String, PageVar)>)
    ensures
        vars_view(vars@) == Seq::<(Seq<char>, VarView)>::empty(),
{
    let vars: Vec<(String, PageVar)> = Vec::new();
    assert(vars_view(vars@) =~= Seq::<(Seq<char>, VarView)>::empty());
    vars
}

/// The text of the base directory.
pub open spec fn base_text(state: StateView) -> VarView {
    VarView::Text(crate::text::lossy_text(state.base_dir))
}

fn base_var(state: &MarkdownState) -> (var: PageVar)
    ensures
        var@ == base_text(state@),
{
    PageVar::Text(from_utf8_lossy(state.base_dir.as_slice()))
}

/// Which page the root address leads to.
pub enum RootPage {
    /// The choice of a workspace.
    Picker,
    /// The note that a file can be chosen.
    Landing,
    /// The page of a file.
    File(String),
    /// There is nothing to show.
    Nothing,
}

/// Which page the root address leads to. `picker` in the query forces the
/// choice of a workspace, so that a new window shows it whatever is open.
pub fn serve_html_root(state: &MarkdownState, query: Option<&str>) -> (page: RootPage)
    requires
        state.wf(),
    ensures
        ({
            let s = state@;
            if (query matches Some(q) && crate::text::contains_text(q@, "picker"@))
                || s.daemon_mode && s.base_dir.len() == 0 {
                page is Picker
            } else if s.is_directory_mode {
                page is Landing
            } else if forall|name: Seq<char>| !s.files.contains_key(name) {
                if s.daemon_mode {
                    page is Picker
                } else {
                    page is Nothing
                }
            } else {
                page matches RootPage::File(first) && s.files.contains_key(first@) && forall|
                    name: Seq<char>,
                | #[trigger]
                    s.files.contains_key(name) ==> text_order()(first@, name)
            }
        }),
{
    let force_picker = match query {
        Some(q) => has_text(q, "picker"),
        None => false,
    };
    if force_picker || (state.daemon_mode && !state.has_workspace()) {
        return RootPage::Picker;
    }
    if state.is_directory_mode {
        return RootPage::Landing;
    }
    let names = state.get_sorted_filenames();
    proof {
        let all = views(names@);
        assert forall|name: Seq<char>| state@.files.contains_key(name) <==> all.contains(name) by {
            assert(all.to_set().contains(name) <==> all.contains(name));
            assert(state@.files.dom().contains(name) <==> state@.files.contains_key(name));
        }
        if names@.len() > 0 {
            assert(all.contains(all[0]));
            crate::order::lemma_text_order_total();
            let order = text_order();
            assert forall|name: Seq<char>| #[trigger] state@.files.contains_key(name) implies order(
                all[0],
                name,
            ) by {
                let i = all.index_of(name);
                if i > 0 {
                    assert(order(all[0], all[i]));
                } else {
                    assert(order(name, name));
                }
            }
        }
    }
    if names.len() == 0 {
        if state.daemon_mode {
            RootPage::Picker
        } else {
            RootPage::Nothing
        }
    } else {
        RootPage::File(names[0].clone())
    }
}

/// The page where there is nothing to show.
pub fn no_files_page() -> (page: Page)
    ensures
        page@ == (PageView {
            status: Status::InternalServerError,
            body: "No files available to serve"@,
        }),
{
    Page {
        status: Status::InternalServerError,
        body: "No files available to serve".to_owned(),
    }
}

/// How a path below the root address is served.
#[derive(Clone, Copy, Debug, PartialEq, Eq, Structural)]
pub enum FileRoute {
    /// As the page of a tracked file.
    Page,
    /// As an image, as it stands on disk.
    Image,
    /// With the note that there is no such file.
    NotFound,
}

/// How a path below the root address is served.
pub fn serve_file(state: &MarkdownState, filepath: &str) -> (route: FileRoute)
    requires
        state.wf(),
    ensures
        ({
            let path = vstd::utf8::encode_utf8(filepath@);
            route == (if crate::util::is_supported(path) {
                if state@.files.contains_key(filepath@) {
                    FileRoute::Page
                } else {
                    FileRoute::NotFound
                }
            } else if crate::util::is_image(path) {
                FileRoute::Image
            } else {
                FileRoute::NotFound
            })
        }),
{
    if is_supported_file(filepath.as_bytes()) {
        if state.tracked_files.contains_key(filepath) {
            FileRoute::Page
        } else {
            FileRoute::NotFound
        }
    } else if is_image_file(filepath) {
        FileRoute::Image
    } else {
        FileRoute::NotFound
    }
}

/// The variables that only pages with a sidebar have.
pub open spec fn sidebar_vars(shown: bool, nav: Navigation) -> Seq<(Seq<char>, VarView)> {
    if shown {
        seq![
            ("tree"@, VarView::Json(nav.tree@)),
            ("saved_tabs"@, VarView::Json(nav.saved_tabs@)),
        ]
    } else {
        Seq::empty()
    }
}

fn put_sidebar(vars: &mut Vec<(String, PageVar)>, shown: bool, nav: &Navigation)
    ensures
        vars_view(final(vars)@) == vars_view(old(vars)@) + sidebar_vars(shown, *nav),
{
    if shown {
        put(vars, "tree", PageVar::Json(nav.tree.clone()));
        put(vars, "saved_tabs", PageVar::Json(nav.saved_tabs.clone()));
    }
    assert(vars_view(vars@) =~= vars_view(old(vars)@) + sidebar_vars(shown, *nav));
}

/// The note on the page that a directory opens with.
pub open spec fn landing_html() -> Seq<char> {
    "<div class=\"landing-page\"><h2>Pick a file to get started</h2><p>Select a file from the sidebar, or press <code>n</code> to create a new one.</p></div>"@
}

/// The variables of the page that a directory opens with.
pub open spec fn landing_vars(state: StateView, nav: Navigation) -> Seq<(Seq<char>, VarView)> {
    seq![
        ("content"@, VarView::Html(landing_html())),
        ("file_type"@, VarView::Text("markdown"@)),
        ("show_navigation"@, VarView::Flag(true)),
        ("has_history"@, VarView::Flag(false)),
        ("current_file"@, VarView::Text(""@)),
        ("base_dir"@, base_text(state)),
        ("daemon_mode"@, VarView::Flag(state.daemon_mode)),
        ("is_default_file"@, VarView::Flag(true)),
        ("is_landing"@, VarView::Flag(true)),
    ] + sidebar_vars(true, nav)
}

/// The page that a directory opens with: the sidebar, and the note that a file
/// can be chosen.
pub fn render_empty_landing(
    state: &MarkdownState,
    template_error: Option<&str>,
    nav: &Navigation,
) -> (plan: PagePlan)
    ensures
        plan@ == plan_from(
            option_view(template_error),
            landing_vars(state@, *nav),
            Status::Success,
        ),
{
    let mut vars = no_vars();
    put(
        &mut vars,
        "content",
        PageVar::Html(
            "<div class=\"landing-page\"><h2>Pick a file to get started</h2><p>Select a file from the sidebar, or press <code>n</code> to create a new one.</p></div>".to_owned(),
        ),
    );
    put(&mut vars, "file_type", text_var("markdown"));
    put(&mut vars, "show_navigation", PageVar::Flag(true));
    put(&mut vars, "has_history", PageVar::Flag(false));
    put(&mut vars, "current_file", text_var(""));
    put(&mut vars, "base_dir", base_var(state));
    put(&mut vars, "daemon_mode", PageVar::Flag(state.daemon_mode));
    put(&mut vars, "is_default_file", PageVar::Flag(true));
    put(&mut vars, "is_landing", PageVar::Flag(true));
    put_sidebar(&mut vars, true, nav);
    assert(vars_view(vars@) =~= landing_vars(state@, *nav));
    make_plan(template_error, vars, Status::Success)
}

/// The recently opened paths of a configuration.
pub open spec fn recent_of(config: Option<AppConfig>) -> Seq<RecentView> {
    match config {
        Some(config) => views(config.recent@),
        None => Seq::empty(),
    }
}

fn copy_recent(config: &Option<AppConfig>) -> (out: Vec<RecentEntry>)
    ensures
        views(out@) == recent_of(*config),
{
    let mut out: Vec<RecentEntry> = Vec::new();
    match config {
        Some(config) => {
            for i in 0..config.recent.len()
                invariant
                    out@.len() == i,
                    forall|j: int| 0 <= j < i ==> (#[trigger] out@[j])@ == config.recent@[j]@,
            {
                let entry = &config.recent[i];
                out.push(
                    RecentEntry {
                        path: entry.path.clone(),
                        mode: entry.mode.clone(),
                        last_opened: entry.last_opened,
                    },
                );
            }
            assert(views(out@) =~= views(config.recent@));
        },
        None => {
            assert(views(out@) =~= Seq::<RecentView>::empty());
        },
    }
    out
}

/// The variables of the page on which a workspace is chosen.
pub open spec fn picker_vars(state: StateView) -> Seq<(Seq<char>, VarView)> {
    seq![
        ("daemon_mode"@, VarView::Flag(true)),
        ("no_workspace"@, VarView::Flag(true)),
        ("show_navigation"@, VarView::Flag(false)),
        ("recent_workspaces"@, VarView::Recent(recent_of(state.config))),
        ("current_file"@, VarView::Text(""@)),
        ("base_dir"@, VarView::Text(""@)),
    ]
}

/// The page on which a workspace is chosen, with those that were open lately.
pub fn render_workspace_picker(state: &MarkdownState, template_error: Option<&str>) -> (plan:
    PagePlan)
    ensures
        plan@ == plan_from(option_view(template_error), picker_vars(state@), Status::Success),
{
    let mut vars = no_vars();
    put(&mut vars, "daemon_mode", PageVar::Flag(true));
    put(&mut vars, "no_workspace", PageVar::Flag(true));
    put(&mut vars, "show_navigation", PageVar::Flag(false));
    put(&mut vars, "recent_workspaces", PageVar::Recent(copy_recent(&state.config)));
    put(&mut vars, "current_file", text_var(""));
    put(&mut vars, "base_dir", text_var(""));
    assert(vars_view(vars@) =~= picker_vars(state@));
    make_plan(template_error, vars, Status::Success)
}

/// Whether the page of a file needs the diagram renderer: only Markdown and
/// Mermaid files do, and those only if they hold a diagram.
pub open spec fn needs_mermaid(name: Seq<char>, html: Seq<char>) -> bool {
    let class = crate::util::class_of(vstd::utf8::encode_utf8(name));
    (class == "markdown"@ || class == "mermaid"@) && crate::text::contains_text(
        html,
        "class=\"language-mermaid\""@,
    )
}

/// The variables of the page of a tracked file.
pub open spec fn file_vars(
    state: StateView,
    name: Seq<char>,
    is_default_file: bool,
    nav: Navigation,
) -> Seq<(Seq<char>, VarView)> {
    let file = state.files[name];
    seq![
        ("content"@, VarView::Html(file.html)),
        ("file_type"@, VarView::Text(crate::util::class_of(vstd::utf8::encode_utf8(name)))),
        ("file_modified"@, VarView::Number(file.last_modified.epoch_secs())),
        ("mermaid_enabled"@, VarView::Flag(needs_mermaid(name, file.html))),
        ("show_navigation"@, VarView::Flag(state.is_directory_mode)),
        ("has_history"@, VarView::Flag(state.mdlive_dir is Some)),
        ("current_file"@, VarView::Text(name)),
        ("base_dir"@, base_text(state)),
        ("daemon_mode"@, VarView::Flag(state.daemon_mode)),
        ("is_default_file"@, VarView::Flag(is_default_file)),
    ] + sidebar_vars(state.is_directory_mode, nav)
}

/// What is sent for a file. A template that does not compile is reported even
/// where there is no such file. What is given of the sidebar is not looked at
/// where none is shown.
pub open spec fn file_plan(
    state: StateView,
    name: Seq<char>,
    is_default_file: bool,
    template_error: Option<Seq<char>>,
    nav: Navigation,
) -> PlanView {
    match template_error {
        Some(error) => PlanView::Done(template_error_page(error)),
        None => if state.files.contains_key(name) {
            PlanView::Fill {
                vars: file_vars(state, name, is_default_file, nav),
                status: Status::Success,
            }
        } else {
            PlanView::Done(PageView { status: Status::NotFound, body: "File not found"@ })
        },
    }
}

/// The page of a file, as it was last rendered.
pub fn render_file_with_default_flag(
    state: &MarkdownState,
    current_file: &str,
    is_default_file: bool,
    template_error: Option<&str>,
    nav: &Navigation,
) -> (plan: PagePlan)
    requires
        state.wf(),
    ensures
        plan@ == file_plan(
            state@,
            current_file@,
            is_default_file,
            option_view(template_error),
            *nav,
        ),
{
    match template_error {
        Some(error) => {
            return PagePlan::Done(page_of_template_error(error));
        },
        None => {},
    }
    let file_type = file_type_class(current_file);
    let file = match state.tracked_files.get(current_file) {
        Some(file) => file,
        None => {
            return PagePlan::Done(
                Page { status: Status::NotFound, body: "File not found".to_owned() },
            );
        },
    };
    let draws = same_text(file_type, "markdown") || same_text(file_type, "mermaid");
    let mermaid = draws && has_text(file.html.as_str(), "class=\"language-mermaid\"");
    let shown = state.show_navigation();
    let mut vars = no_vars();
    put(&mut vars, "content", PageVar::Html(file.html.clone()));
    put(&mut vars, "file_type", text_var(file_type));
    put(&mut vars, "file_modified", PageVar::Number(file.last_modified.to_epoch()));
    put(&mut vars, "mermaid_enabled", PageVar::Flag(mermaid));
    put(&mut vars, "show_navigation", PageVar::Flag(shown));
    put(&mut vars, "has_history", PageVar::Flag(state.mdlive_dir.is_some()));
    put(&mut vars, "current_file", text_var(current_file));
    put(&mut vars, "base_dir", base_var(state));
    put(&mut vars, "daemon_mode", PageVar::Flag(state.daemon_mode));
    put(&mut vars, "is_default_file", PageVar::Flag(is_default_file));
    put_sidebar(&mut vars, shown, nav);
    assert(vars_view(vars@) =~= file_vars(state@, current_file@, is_default_file, *nav));
    PagePlan::Fill { vars, status: Status::Success }
}

/// The variables of the page on which a file is edited.
pub open spec fn editor_vars(
    state: StateView,
    name: Seq<char>,
    raw_content: Seq<char>,
    new_file_mode: bool,
    nav: Navigation,
) -> Seq<(Seq<char>, VarView)> {
    let modified = if !new_file_mode && state.files.contains_key(name) {
        state.files[name].last_modified.epoch_secs()
    } else {
        0
    };
    seq![
        ("editor_mode"@, VarView::Flag(true)),
        ("new_file_mode"@, VarView::Flag(new_file_mode)),
        ("file_type"@, VarView::Text(crate::util::class_of(vstd::utf8::encode_utf8(name)))),
        ("file_modified"@, VarView::Number(modified)),
        ("raw_content"@, VarView::Text(raw_content)),
        ("current_file"@, VarView::Text(name)),
        ("has_history"@, VarView::Flag(state.mdlive_dir is Some && !new_file_mode)),
        ("show_navigation"@, VarView::Flag(state.is_directory_mode)),
        ("base_dir"@, base_text(state)),
        ("daemon_mode"@, VarView::Flag(state.daemon_mode)),
    ] + sidebar_vars(state.is_directory_mode, nav)
}

/// The page on which a file is edited.
pub fn render_editor(
    state: &MarkdownState,
    current_file: &str,
    raw_content: &str,
    new_file_mode: bool,
    template_error: Option<&str>,
    nav: &Navigation,
) -> (plan: PagePlan)
    requires
        state.wf(),
    ensures
        plan@ == plan_from(
            option_view(template_error),
            editor_vars(state@, current_file@, raw_content@, new_file_mode, *nav),
            Status::Success,
        ),
{
    let modified: u64 = match state.tracked_files.get(current_file) {
        Some(file) => if new_file_mode {
            0
        } else {
            file.last_modified.to_epoch()
        },
        None => 0,
    };
    let shown = state.show_navigation();
    let mut vars = no_vars();
    put(&mut vars, "editor_mode", PageVar::Flag(true));
    put(&mut vars, "new_file_mode", PageVar::Flag(new_file_mode));
    put(&mut vars, "file_type", text_var(file_type_class(current_file)));
    put(&mut vars, "file_modified", PageVar::Number(modified));
    put(&mut vars, "raw_content", text_var(raw_content));
    put(&mut vars, "current_file", text_var(current_file));
    put(
        &mut vars,
        "has_history",
        PageVar::Flag(state.mdlive_dir.is_some() && !new_file_mode),
    );
    put(&mut vars, "show_navigation", PageVar::Flag(shown));
    put(&mut vars, "base_dir", base_var(state));
    put(&mut vars, "daemon_mode", PageVar::Flag(state.daemon_mode));
    put_sidebar(&mut vars, shown, nav);
    assert(vars_view(vars@) =~= editor_vars(
        state@,
        current_file@,
        raw_content@,
        new_file_mode,
        *nav,
    ));
    make_plan(template_error, vars, Status::Success)
}

/// The page on which a tracked file is edited, given what it holds on disk
/// (nothing, where it cannot be read); a file that is not tracked is reported
/// as missing.
pub fn serve_editor(
    state: &MarkdownState,
    filepath: &str,
    raw_content: Option<&str>,
    template_error: Option<&str>,
    nav: &Navigation,
) -> (plan: PagePlan)
    requires
        state.wf(),
    ensures
        plan@ == (if state@.files.contains_key(filepath@) {
            let raw = match raw_content {
                Some(raw) => raw@,
                None => ""@,
            };
            plan_from(
                option_view(template_error),
                editor_vars(state@, filepath@, raw, false, *nav),
                Status::Success,
            )
        } else {
            plan_from(
                option_view(template_error),
                missing_vars(state@, filepath@, *nav),
                Status::NotFound,
            )
        }),
{
    if !state.tracked_files.contains_key(filepath) {
        return render_not_found(state, filepath, template_error, nav);
    }
    let raw = match raw_content {
        Some(raw) => raw,
        None => "",
    };
    render_editor(state, filepath, raw, false, template_error, nav)
}

/// The name that is offered for a new file in a directory.
pub open spec fn new_file_name(dir: Seq<char>) -> Seq<char> {
    if dir.len() == 0 {
        "new.md"@
    } else {
        dir + "/new.md"@
    }
}

/// The page on which a new file is written; there is one only in directory
/// mode.
pub fn serve_new_file_editor(
    state: &MarkdownState,
    dir: &str,
    template_error: Option<&str>,
    nav: &Navigation,
) -> (plan: PagePlan)
    requires
        state.wf(),
    ensures
        plan@ == (if state@.is_directory_mode {
            plan_from(
                option_view(template_error),
                editor_vars(state@, new_file_name(dir@), ""@, true, *nav),
                Status::Success,
            )
        } else {
            PlanView::Done(
                PageView {
                    status: Status::BadRequest,
                    body: "New file only available in directory mode"@,
                },
            )
        }),
{
    if !state.is_directory_mode {
        return PagePlan::Done(
            Page {
                status: Status::BadRequest,
                body: "New file only available in directory mode".to_owned(),
            },
        );
    }
    proof {
        reveal_strlit("");
        assert(dir@.len() == 0 <==> dir@ =~= ""@);
    }
    let name = if same_text(dir, "") {
        "new.md".to_owned()
    } else {
        joined(dir, "/new.md")
    };
    render_editor(state, name.as_str(), "", true, template_error, nav)
}

/// What the page of a missing file offers to do.
pub open spec fn missing_hint(navigation: bool) -> Seq<char> {
    if navigation {
        "Pick a file from the sidebar, or <a href=\"/\">open the workspace default</a>."@
    } else {
        "<a href=\"/\">Reload the workspace</a>."@
    }
}

/// The note on the page of a missing file. The path is escaped: it comes from
/// the address.
pub open spec fn missing_html(path: Seq<char>, navigation: bool) -> Seq<char> {
    "<div class=\"not-found-page\"><h2>File unavailable</h2><p><code>"@
        + crate::text::html_escaped(path)
        + "</code> was moved, renamed, or deleted.</p><p>"@ + missing_hint(navigation)
        + "</p></div>"@
}

/// The variables of the page of a missing file.
pub open spec fn missing_vars(state: StateView, path: Seq<char>, nav: Navigation) -> Seq<
    (Seq<char>, VarView),
> {
    seq![
        ("content"@, VarView::Html(missing_html(path, state.is_directory_mode))),
        ("file_type"@, VarView::Text("markdown"@)),
        ("show_navigation"@, VarView::Flag(state.is_directory_mode)),
        ("current_file"@, VarView::Text(""@)),
        ("base_dir"@, base_text(state)),
        ("daemon_mode"@, VarView::Flag(state.daemon_mode)),
        ("unavailable_path"@, VarView::Text(path)),
    ] + (if state.is_directory_mode {
        seq![("tree"@, VarView::Json(nav.tree@))]
    } else {
        Seq::<(Seq<char>, VarView)>::empty()
    })
}

/// The page that says that a file was moved, renamed or deleted.
pub fn render_not_found(
    state: &MarkdownState,
    path: &str,
    template_error: Option<&str>,
    nav: &Navigation,
) -> (plan: PagePlan)
    ensures
        plan@ == plan_from(
            option_view(template_error),
            missing_vars(state@, path@, *nav),
            Status::NotFound,
        ),
{
    let escaped = html_escape(path);
    let shown = state.show_navigation();
    let mut content = joined(
        "<div class=\"not-found-page\"><h2>File unavailable</h2><p><code>",
        escaped.as_str(),
    );
    content.append("</code> was moved, renamed, or deleted.</p><p>");
    if shown {
        content.append(
            "Pick a file from the sidebar, or <a href=\"/\">open the workspace default</a>.",
        );
    } else {
        content.append("<a href=\"/\">Reload the workspace</a>.");
    }
    content.append("</p></div>");
    let mut vars = no_vars();
    put(&mut vars, "content", PageVar::Html(content));
    put(&mut vars, "file_type", text_var("markdown"));
    put(&mut vars, "show_navigation", PageVar::Flag(shown));
    put(&mut vars, "current_file", text_var(""));
    put(&mut vars, "base_dir", base_var(state));
    put(&mut vars, "daemon_mode", PageVar::Flag(state.daemon_mode));
    put(&mut vars, "unavailable_path", text_var(path));
    if shown {
        put(&mut vars, "tree", PageVar::Json(nav.tree.clone()));
    }
    assert(vars_view(vars@) =~= missing_vars(state@, path@, *nav));
    make_plan(template_error, vars, Status::NotFound)
}

/// The page of a file that is not there never passes for a page that is,
/// whatever filling in the template gives.
pub proof fn law_missing_file_is_no_success(
    state: StateView,
    name: Seq<char>,
    is_default_file: bool,
    template_error: Option<Seq<char>>,
    nav: Navigation,
    rendered: Result<Seq<char>, Seq<char>>,
)
    ensures
        planned_page(
            plan_from(template_error, missing_vars(state, name, nav), Status::NotFound),
            rendered,
        ).status != Status::Success,
        !state.files.contains_key(name) ==> planned_page(
            file_plan(state, name, is_default_file, template_error, nav),
            rendered,
        ).status != Status::Success,
{
}

/// A template that does not compile is reported on every page that would fill it
/// in, with the error, and before a missing file is.
pub proof fn law_broken_template_is_reported(
    error: Seq<char>,
    vars: Seq<(Seq<char>, VarView)>,
    status: Status,
    state: StateView,
    name: Seq<char>,
    is_default_file: bool,
    nav: Navigation,
    rendered: Result<Seq<char>, Seq<char>>,
)
    ensures
        planned_page(plan_from(Some(error), vars, status), rendered) == template_error_page(error),
        planned_page(file_plan(state, name, is_default_file, Some(error), nav), rendered)
            == template_error_page(error),
{
}

/// Whether variables give a name this value and no other.
pub open spec fn sets(vars: Seq<(Seq<char>, VarView)>, name: Seq<char>, value: VarView) -> bool {
    &&& vars.contains((name, value))
    &&& forall|i: int| 0 <= i < vars.len() && (#[trigger] vars[i]).0 == name ==> vars[i].1 == value
}

/// Whether variables give a name no value.
pub open spec fn leaves_out(vars: Seq<(Seq<char>, VarView)>, name: Seq<char>) -> bool {
    forall|i: int| 0 <= i < vars.len() ==> (#[trigger] vars[i]).0 != name
}

/// The length and the first character of a name, by which the names of variables
/// can be told apart.
spec fn mark(name: Seq<char>) -> (nat, char) {
    (name.len(), name[0])
}

proof fn lemma_marks()
    ensures
        mark("content"@) == (7nat, 'c'),
        mark("file_type"@) == (9nat, 'f'),
        mark("file_modified"@) == (13nat, 'f'),
        mark("mermaid_enabled"@) == (15nat, 'm'),
        mark("show_navigation"@) == (15nat, 's'),
        mark("has_history"@) == (11nat, 'h'),
        mark("current_file"@) == (12nat, 'c'),
        mark("base_dir"@) == (8nat, 'b'),
        mark("daemon_mode"@) == (11nat, 'd'),
        mark("is_default_file"@) == (15nat, 'i'),
        mark("tree"@) == (4nat, 't'),
        mark("saved_tabs"@) == (10nat, 's'),
        mark("is_landing"@) == (10nat, 'i'),
        mark("no_workspace"@) == (12nat, 'n'),
        mark("recent_workspaces"@) == (17nat, 'r'),
        mark("editor_mode"@) == (11nat, 'e'),
        mark("new_file_mode"@) == (13nat, 'n'),
        mark("raw_content"@) == (11nat, 'r'),
        mark("unavailable_path"@) == (16nat, 'u'),
{
    reveal_strlit("content");
    reveal_strlit("file_type");
    reveal_strlit("file_modified");
    reveal_strlit("mermaid_enabled");
    reveal_strlit("show_navigation");
    reveal_strlit("has_history");
    reveal_strlit("current_file");
    reveal_strlit("base_dir");
    reveal_strlit("daemon_mode");
    reveal_strlit("is_default_file");
    reveal_strlit("tree");
    reveal_strlit("saved_tabs");
    reveal_strlit("is_landing");
    reveal_strlit("no_workspace");
    reveal_strlit("recent_workspaces");
    reveal_strlit("editor_mode");
    reveal_strlit("new_file_mode");
    reveal_strlit("raw_content");
    reveal_strlit("unavailable_path");
}

/// Whether no two variables have the same mark.
spec fn marks_differ(vars: Seq<(Seq<char>, VarView)>) -> bool {
    forall|i: int, j: int|
        0 <= i < j < vars.len() ==> mark((#[trigger] vars[i]).0) != mark((#[trigger] vars[j]).0)
}

proof fn lemma_sets(vars: Seq<(Seq<char>, VarView)>, k: int)
    requires
        marks_differ(vars),
        0 <= k < vars.len(),
    ensures
        sets(vars, vars[k].0, vars[k].1),
{
    assert(vars[k] == (vars[k].0, vars[k].1));
    assert forall|i: int| 0 <= i < vars.len() && (#[trigger] vars[i]).0
        == vars[k].0 implies vars[i].1 == vars[k].1 by {
        if i < k {
            assert(mark(vars[i].0) != mark(vars[k].0));
        } else if i > k {
            assert(mark(vars[k].0) != mark(vars[i].0));
        }
    }
}

/// The page of a tracked file shows its HTML as it is, and tells its name, its kind,
/// when it was last modified, whether there is a history, and what the server does.
/// The sidebar is there exactly in directory mode.
pub proof fn law_page_of_a_file_shows_the_file(
    state: StateView,
    name: Seq<char>,
    is_default_file: bool,
    nav: Navigation,
)
    requires
        state.files.contains_key(name),
    ensures
        file_plan(state, name, is_default_file, None, nav) matches PlanView::Fill { vars, status }
            && {
            let file = state.files[name];
            let class = crate::util::class_of(vstd::utf8::encode_utf8(name));
            &&& status == Status::Success
            &&& sets(vars, "content"@, VarView::Html(file.html))
            &&& sets(vars, "file_type"@, VarView::Text(class))
            &&& sets(vars, "file_modified"@, VarView::Number(file.last_modified.epoch_secs()))
            &&& sets(vars, "show_navigation"@, VarView::Flag(state.is_directory_mode))
            &&& sets(vars, "has_history"@, VarView::Flag(state.mdlive_dir is Some))
            &&& sets(vars, "current_file"@, VarView::Text(name))
            &&& sets(vars, "base_dir"@, VarView::Text(crate::text::lossy_text(state.base_dir)))
            &&& sets(vars, "daemon_mode"@, VarView::Flag(state.daemon_mode))
            &&& sets(vars, "is_default_file"@, VarView::Flag(is_default_file))
            &&& state.is_directory_mode ==> sets(vars, "tree"@, VarView::Json(nav.tree@)) && sets(
                vars,
                "saved_tabs"@,
                VarView::Json(nav.saved_tabs@),
            )
            &&& !state.is_directory_mode ==> leaves_out(vars, "tree"@) && leaves_out(
                vars,
                "saved_tabs"@,
            )
        },
{
    let vars = file_vars(state, name, is_default_file, nav);
    lemma_marks();
    assert(marks_differ(vars));
    lemma_sets(vars, 0);
    lemma_sets(vars, 1);
    lemma_sets(vars, 2);
    lemma_sets(vars, 4);
    lemma_sets(vars, 5);
    lemma_sets(vars, 6);
    lemma_sets(vars, 7);
    lemma_sets(vars, 8);
    lemma_sets(vars, 9);
    if state.is_directory_mode {
        lemma_sets(vars, 10);
        lemma_sets(vars, 11);
    } else {
        assert forall|i: int| 0 <= i < vars.len() implies mark((#[trigger] vars[i]).0) != mark(
            "tree"@,
        ) && mark(vars[i].0) != mark("saved_tabs"@) by {}
    }
}

/// The page of a tracked file has diagrams enabled exactly if it is a Markdown or a
/// Mermaid file and somewhere in its HTML there is the class of a diagram.
pub proof fn law_diagrams_are_drawn_where_there_are_some(
    state: StateView,
    name: Seq<char>,
    is_default_file: bool,
    nav: Navigation,
)
    requires
        state.files.contains_key(name),
    ensures
        file_plan(state, name, is_default_file, None, nav) matches PlanView::Fill { vars, .. } && {
            let path = vstd::utf8::encode_utf8(name);
            let drawn = (crate::util::is_markdown(path) || crate::util::is_mermaid(path)) && exists|
                before: Seq<char>,
                behind: Seq<char>,
            |
                state.files[name].html == #[trigger] (before + "class=\"language-mermaid\""@
                    + behind);
            sets(vars, "mermaid_enabled"@, VarView::Flag(drawn))
        },
{
    let vars = file_vars(state, name, is_default_file, nav);
    lemma_marks();
    assert(marks_differ(vars));
    lemma_sets(vars, 3);
    crate::util::law_class_tells_the_kind(vstd::utf8::encode_utf8(name));
    crate::text::law_text_is_found_where_it_stands(
        state.files[name].html,
        "class=\"language-mermaid\""@,
    );
}

/// Whether diagrams are drawn depends on the file alone: wherever it is tracked under
/// the same name with the same HTML, in whatever mode, the answer is the same.
pub proof fn law_diagrams_depend_on_the_file_alone(
    a: StateView,
    b: StateView,
    name: Seq<char>,
    default_in_a: bool,
    default_in_b: bool,
    nav_a: Navigation,
    nav_b: Navigation,
    flag: bool,
)
    requires
        a.files.contains_key(name),
        b.files.contains_key(name),
        a.files[name].html == b.files[name].html,
    ensures
        file_plan(a, name, default_in_a, None, nav_a) matches PlanView::Fill { vars: x, .. }
            && file_plan(b, name, default_in_b, None, nav_b) matches PlanView::Fill { vars: y, .. }
            && (sets(x, "mermaid_enabled"@, VarView::Flag(flag)) <==> sets(
            y,
            "mermaid_enabled"@,
            VarView::Flag(flag),
        )),
{
    law_diagrams_are_drawn_where_there_are_some(a, name, default_in_a, nav_a);
    law_diagrams_are_drawn_where_there_are_some(b, name, default_in_b, nav_b);
    let x = file_vars(a, name, default_in_a, nav_a);
    let y = file_vars(b, name, default_in_b, nav_b);
    assert(x[3].0 == "mermaid_enabled"@ && y[3].0 == "mermaid_enabled"@);
}

/// The page of a file that is not tracked says so.
pub proof fn law_page_of_an_unknown_file(
    state: StateView,
    name: Seq<char>,
    is_default_file: bool,
    nav: Navigation,
)
    requires
        !state.files.contains_key(name),
    ensures
        file_plan(state, name, is_default_file, None, nav) == PlanView::Done(
            PageView { status: Status::NotFound, body: "File not found"@ },
        ),
{
}

/// The page that a directory opens with has the sidebar and no file.
pub proof fn law_landing_page_offers_the_sidebar(state: StateView, nav: Navigation)
    ensures
        ({
            let vars = landing_vars(state, nav);
            &&& sets(
                vars,
                "content"@,
                VarView::Html(
                    "<div class=\"landing-page\"><h2>Pick a file to get started</h2><p>Select a file from the sidebar, or press <code>n</code> to create a new one.</p></div>"@,
                ),
            )
            &&& sets(vars, "file_type"@, VarView::Text("markdown"@))
            &&& sets(vars, "show_navigation"@, VarView::Flag(true))
            &&& sets(vars, "has_history"@, VarView::Flag(false))
            &&& sets(vars, "current_file"@, VarView::Text(""@))
            &&& sets(vars, "base_dir"@, VarView::Text(crate::text::lossy_text(state.base_dir)))
            &&& sets(vars, "daemon_mode"@, VarView::Flag(state.daemon_mode))
            &&& sets(vars, "is_default_file"@, VarView::Flag(true))
            &&& sets(vars, "is_landing"@, VarView::Flag(true))
            &&& sets(vars, "tree"@, VarView::Json(nav.tree@))
            &&& sets(vars, "saved_tabs"@, VarView::Json(nav.saved_tabs@))
        }),
{
    let vars = landing_vars(state, nav);
    lemma_marks();
    assert(marks_differ(vars));
    lemma_sets(vars, 0);
    lemma_sets(vars, 1);
    lemma_sets(vars, 2);
    lemma_sets(vars, 3);
    lemma_sets(vars, 4);
    lemma_sets(vars, 5);
    lemma_sets(vars, 6);
    lemma_sets(vars, 7);
    lemma_sets(vars, 8);
    lemma_sets(vars, 9);
    lemma_sets(vars, 10);
}

/// The page on which a workspace is chosen lists every path that was opened lately,
/// in order, and none where there is no configuration. It has no sidebar.
pub proof fn law_picker_lists_what_was_opened(state: StateView, i: int)
    ensures
        ({
            let vars = picker_vars(state);
            let recent = recent_of(state.config);
            &&& sets(vars, "recent_workspaces"@, VarView::Recent(recent))
            &&& sets(vars, "daemon_mode"@, VarView::Flag(true))
            &&& sets(vars, "no_workspace"@, VarView::Flag(true))
            &&& sets(vars, "show_navigation"@, VarView::Flag(false))
            &&& sets(vars, "current_file"@, VarView::Text(""@))
            &&& sets(vars, "base_dir"@, VarView::Text(""@))
            &&& leaves_out(vars, "tree"@)
            &&& state.config is None ==> recent.len() == 0
            &&& state.config matches Some(config) ==> recent.len() == config.recent@.len() && (0
                <= i < recent.len() ==> recent[i].path == config.recent@[i].path@ && recent[i].mode
                == config.recent@[i].mode@ && recent[i].last_opened
                == config.recent@[i].last_opened)
        }),
{
    let vars = picker_vars(state);
    lemma_marks();
    assert(marks_differ(vars));
    lemma_sets(vars, 0);
    lemma_sets(vars, 1);
    lemma_sets(vars, 2);
    lemma_sets(vars, 3);
    lemma_sets(vars, 4);
    lemma_sets(vars, 5);
    assert forall|i: int| 0 <= i < vars.len() implies mark((#[trigger] vars[i]).0) != mark(
        "tree"@,
    ) by {}
}

/// The page on which a file is edited holds its raw content as text, and tells its
/// name, its kind and when it was last modified; a new file has neither a time nor a
/// history. The sidebar is there exactly in directory mode.
pub proof fn law_editor_holds_the_raw_content(
    state: StateView,
    name: Seq<char>,
    raw_content: Seq<char>,
    new_file_mode: bool,
    nav: Navigation,
)
    ensures
        ({
            let vars = editor_vars(state, name, raw_content, new_file_mode, nav);
            let class = crate::util::class_of(vstd::utf8::encode_utf8(name));
            &&& sets(vars, "editor_mode"@, VarView::Flag(true))
            &&& sets(vars, "new_file_mode"@, VarView::Flag(new_file_mode))
            &&& sets(vars, "file_type"@, VarView::Text(class))
            &&& sets(vars, "raw_content"@, VarView::Text(raw_content))
            &&& sets(vars, "current_file"@, VarView::Text(name))
            &&& sets(vars, "show_navigation"@, VarView::Flag(state.is_directory_mode))
            &&& sets(vars, "base_dir"@, VarView::Text(crate::text::lossy_text(state.base_dir)))
            &&& sets(vars, "daemon_mode"@, VarView::Flag(state.daemon_mode))
            &&& new_file_mode ==> sets(vars, "has_history"@, VarView::Flag(false)) && sets(
                vars,
                "file_modified"@,
                VarView::Number(0),
            )
            &&& !new_file_mode ==> sets(
                vars,
                "has_history"@,
                VarView::Flag(state.mdlive_dir is Some),
            )
            &&& !new_file_mode && state.files.contains_key(name) ==> sets(
                vars,
                "file_modified"@,
                VarView::Number(state.files[name].last_modified.epoch_secs()),
            )
            &&& !state.files.contains_key(name) ==> sets(
                vars,
                "file_modified"@,
                VarView::Number(0),
            )
            &&& state.is_directory_mode ==> sets(vars, "tree"@, VarView::Json(nav.tree@)) && sets(
                vars,
                "saved_tabs"@,
                VarView::Json(nav.saved_tabs@),
            )
            &&& !state.is_directory_mode ==> leaves_out(vars, "tree"@) && leaves_out(
                vars,
                "saved_tabs"@,
            )
        }),
{
    let vars = editor_vars(state, name, raw_content, new_file_mode, nav);
    lemma_marks();
    assert(marks_differ(vars));
    lemma_sets(vars, 0);
    lemma_sets(vars, 1);
    lemma_sets(vars, 2);
    lemma_sets(vars, 3);
    lemma_sets(vars, 4);
    lemma_sets(vars, 5);
    lemma_sets(vars, 6);
    lemma_sets(vars, 7);
    lemma_sets(vars, 8);
    lemma_sets(vars, 9);
    if state.is_directory_mode {
        lemma_sets(vars, 10);
        lemma_sets(vars, 11);
    } else {
        assert forall|i: int| 0 <= i < vars.len() implies mark((#[trigger] vars[i]).0) != mark(
            "tree"@,
        ) && mark(vars[i].0) != mark("saved_tabs"@) by {}
    }
}

/// A new file is offered in the directory that was asked for, under one name.
pub proof fn law_new_file_lies_in_its_directory(dir: Seq<char>)
    requires
        dir.len() > 0,
    ensures
        new_file_name(dir) == dir.push('/') + new_file_name(Seq::<char>::empty()),
        new_file_name(Seq::<char>::empty()) == "new.md"@,
{
    reveal_strlit("new.md");
    reveal_strlit("/new.md");
    assert(new_file_name(dir) =~= dir.push('/') + "new.md"@);
}

/// The page of a missing file names the path that was asked for, as text and, in its
/// note, escaped: what stands there holds no markup, and read as HTML it is the path.
/// The sidebar is there, and offered, exactly in directory mode.
pub proof fn law_missing_file_is_named(state: StateView, path: Seq<char>, nav: Navigation)
    ensures
        ({
            let vars = missing_vars(state, path, nav);
            let html = missing_html(path, state.is_directory_mode);
            let open = "<div class=\"not-found-page\"><h2>File unavailable</h2><p><code>"@;
            let close = if state.is_directory_mode {
                "</code> was moved, renamed, or deleted.</p><p>"@
                    + "Pick a file from the sidebar, or <a href=\"/\">open the workspace default</a>."@
                    + "</p></div>"@
            } else {
                "</code> was moved, renamed, or deleted.</p><p>"@
                    + "<a href=\"/\">Reload the workspace</a>."@ + "</p></div>"@
            };
            let shown = html.subrange(open.len() as int, html.len() - close.len());
            &&& html == open + shown + close
            &&& !shown.contains('<')
            &&& !shown.contains('>')
            &&& !shown.contains('"')
            &&& crate::text::unescaped(shown) == path
            &&& sets(vars, "content"@, VarView::Html(html))
            &&& sets(vars, "file_type"@, VarView::Text("markdown"@))
            &&& sets(vars, "show_navigation"@, VarView::Flag(state.is_directory_mode))
            &&& sets(vars, "current_file"@, VarView::Text(""@))
            &&& sets(vars, "base_dir"@, VarView::Text(crate::text::lossy_text(state.base_dir)))
            &&& sets(vars, "daemon_mode"@, VarView::Flag(state.daemon_mode))
            &&& sets(vars, "unavailable_path"@, VarView::Text(path))
            &&& state.is_directory_mode ==> sets(vars, "tree"@, VarView::Json(nav.tree@))
            &&& !state.is_directory_mode ==> leaves_out(vars, "tree"@)
        }),
{
    let vars = missing_vars(state, path, nav);
    lemma_marks();
    assert(marks_differ(vars));
    lemma_sets(vars, 0);
    lemma_sets(vars, 1);
    lemma_sets(vars, 2);
    lemma_sets(vars, 3);
    lemma_sets(vars, 4);
    lemma_sets(vars, 5);
    lemma_sets(vars, 6);
    if state.is_directory_mode {
        lemma_sets(vars, 7);
    } else {
        assert forall|i: int| 0 <= i < vars.len() implies mark((#[trigger] vars[i]).0) != mark(
            "tree"@,
        ) by {}
    }
    let html = missing_html(path, state.is_directory_mode);
    let open = "<div class=\"not-found-page\"><h2>File unavailable</h2><p><code>"@;
    let close = "</code> was moved, renamed, or deleted.</p><p>"@ + missing_hint(
        state.is_directory_mode,
    ) + "</p></div>"@;
    let escaped = crate::text::html_escaped(path);
    assert(html =~= open + escaped + close);
    assert(html.subrange(open.len() as int, html.len() - close.len()) =~= escaped);
    crate::text::law_escaped_text_holds_no_markup(path);
    crate::text::law_unescaping_gives_the_text_back(path);
}

/// A template that compiles is filled in with the variables of the page, and what
/// that gives is sent as it is, with the status of the page. Where compiling it or
/// filling it in fails, the error is sent.
pub proof fn law_filled_template_is_sent(
    vars: Seq<(Seq<char>, VarView)>,
    status: Status,
    rendered: Result<Seq<char>, Seq<char>>,
    refusal: Seq<char>,
)
    ensures
        plan_from(None, vars, status) == (PlanView::Fill { vars, status }),
        planned_page(plan_from(None, vars, status), rendered) == rendering_page(rendered, status),
        ({
            let page = planned_page(plan_from(None, vars, status), rendered);
            &&& rendered matches Ok(body) ==> page.status == status && page.body == body
            &&& rendered matches Err(error) ==> page.status == Status::InternalServerError
                && page.body == "Rendering error: "@ + error
        }),
        ({
            let page = planned_page(plan_from(Some(refusal), vars, status), rendered);
            page.status == Status::InternalServerError && page.body == "Template error: "@
                + refusal
        }),
{
}

/// What is said of a variable, a page and a plan is what they hold.
pub proof fn law_views_show_what_is_held(
    text: String,
    flag: bool,
    number: u64,
    recent: Vec<RecentEntry>,
    page: Page,
    vars: Vec<(String, PageVar)>,
    status: Status,
    i: int,
)
    ensures
        PageVar::Text(text)@ == VarView::Text(text@),
        PageVar::Html(text)@ == VarView::Html(text@),
        PageVar::Flag(flag)@ == VarView::Flag(flag),
        PageVar::Number(number)@ == VarView::Number(number),
        PageVar::Json(text)@ == VarView::Json(text@),
        PageVar::Recent(recent)@ == VarView::Recent(views(recent@)),
        page@.status == page.status,
        page@.body == page.body@,
        PagePlan::Done(page)@ == PlanView::Done(page@),
        (PagePlan::Fill { vars, status })@ matches PlanView::Fill { vars: seen, status: code }
            && code == status && seen.len() == vars@.len() && (0 <= i < vars@.len() ==> seen[i]
            == (vars@[i].0@, vars@[i].1@)),
{
}

/// The error of a template counts with its text.
pub proof fn law_errors_count_with_their_text(text: &str)
    ensures
        option_view(Some(text)) == Some(text@),
        option_view(None) is None,
{
}

} // verus!
