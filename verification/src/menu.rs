//! The menu of the desktop program.

use vstd::prelude::*;

#[allow(unused_imports)]
use crate::order::views;
use crate::state::{AppConfig, RecentEntry};
use crate::text::{decimal_text, from_utf8_lossy, joined, same_text, text_after};
#[allow(unused_imports)]
use crate::text::decimal;

verus! {

pub const MINUTE: u64 = 60;

pub const HOUR: u64 = 60 * MINUTE;

pub const DAY: u64 = 24 * HOUR;

pub const WEEK: u64 = 7 * DAY;

pub const MONTH: u64 = 30 * DAY;

pub const YEAR: u64 = 365 * DAY;

/// How long ago a time was, in short: `now`, or a number and a unit. A time of
/// 0 stands for none.
pub open spec fn relative_time(epoch_secs: u64, now: u64) -> Seq<char> {
    let diff: int = if now >= epoch_secs {
        now - epoch_secs
    } else {
        0
    };
    if epoch_secs == 0 {
        ""@
    } else if diff < MINUTE {
        "now"@
    } else if diff < HOUR {
        decimal((diff / MINUTE as int) as nat) + "m"@
    } else if diff < DAY {
        decimal((diff / HOUR as int) as nat) + "h"@
    } else if diff < WEEK {
        decimal((diff / DAY as int) as nat) + "d"@
    } else if diff < MONTH {
        decimal((diff / WEEK as int) as nat) + "w"@
    } else if diff < YEAR {
        decimal((diff / MONTH as int) as nat) + "mo"@
    } else {
        decimal((diff / YEAR as int) as nat) + "y"@
    }
}

fn with_unit(n: u64, unit: &str) -> (out: String)
    ensures
        out@ == decimal(n as nat) + unit@,
{
    joined(decimal_text(n as u128).as_str(), unit)
}

/// How long before `now` a time was, both in seconds since the start of 1970.
pub fn format_relative_time(epoch_secs: u64, now: u64) -> (out: String)
    ensures
        out@ == relative_time(epoch_secs, now),
{
    if epoch_secs == 0 {
        return "".to_owned();
    }
    let diff: u64 = now.saturating_sub(epoch_secs);
    if diff < MINUTE {
        "now".to_owned()
    } else if diff < HOUR {
        with_unit(diff / MINUTE, "m")
    } else if diff < DAY {
        with_unit(diff / HOUR, "h")
    } else if diff < WEEK {
        with_unit(diff / DAY, "d")
    } else if diff < MONTH {
        with_unit(diff / WEEK, "w")
    } else if diff < YEAR {
        with_unit(diff / MONTH, "mo")
    } else {
        with_unit(diff / YEAR, "y")
    }
}

/// The text of the home directory, empty where there is none.
pub open spec fn home_text(home: Option<Seq<u8>>) -> Seq<char> {
    match home {
        Some(home) => crate::text::lossy_text(home),
        None => ""@,
    }
}

/// The view of an optional path.
pub open spec fn bytes_view(path: Option<&[u8]>) -> Option<Seq<u8>> {
    match path {
        Some(path) => Some(path@),
        None => None,
    }
}

/// The text of the home directory, empty where there is none.
pub fn home_prefix(home: Option<&[u8]>) -> (out: String)
    ensures
        out@ == home_text(bytes_view(home)),
{
    match home {
        Some(home) => from_utf8_lossy(home),
        None => "".to_owned(),
    }
}

/// A path in which a leading home directory is written `~`.
pub open spec fn shortened(path: Seq<char>, home: Seq<char>) -> Seq<char> {
    if home.len() > 0 && home.is_prefix_of(path) {
        "~"@ + path.skip(home.len() as int)
    } else {
        path
    }
}

/// Writes a path with `~` in place of a leading home directory.
pub fn shorten_path(path: &str, home: &str) -> (out: String)
    ensures
        out@ == shortened(path@, home@),
{
    proof {
        reveal_strlit("");
        assert(home@.len() == 0 ==> home@ =~= ""@);
    }
    if same_text(home, "") {
        return path.to_owned();
    }
    match text_after(path, home) {
        Some(rest) => joined("~", rest.as_str()),
        None => path.to_owned(),
    }
}

/// An entry that the system supplies.
#[derive(Clone, Copy, Debug, PartialEq, Eq, Structural)]
pub enum NativeItem {
    About,
    Services,
    Hide,
    HideOthers,
    ShowAll,
    Quit,
    Undo,
    Redo,
    Cut,
    Copy,
    Paste,
    SelectAll,
    Fullscreen,
    Minimize,
    Maximize,
}

/// An entry of a menu.
pub enum MenuEntry {
    Item { id: String, label: String, accelerator: Option<String> },
    Separator,
    Native(NativeItem),
    /// The menu of recently opened paths.
    Recent,
}

/// The view of a [`MenuEntry`].
pub enum EntryView {
    Item { id: Seq<char>, label: Seq<char>, accelerator: Option<Seq<char>> },
    Separator,
    Native(NativeItem),
    Recent,
}

impl View for MenuEntry {
    type V = EntryView;

    open spec fn view(&self) -> EntryView {
        match *self {
            MenuEntry::Item { id, label, accelerator } => EntryView::Item {
                id: id@,
                label: label@,
                accelerator: crate::state::text_view(accelerator),
            },
            MenuEntry::Separator => EntryView::Separator,
            MenuEntry::Native(item) => EntryView::Native(item),
            MenuEntry::Recent => EntryView::Recent,
        }
    }
}

/// A menu: its title and its entries.
pub struct Menu {
    pub title: String,
    pub entries: Vec<MenuEntry>,
}

/// The view of a [`Menu`].
pub struct MenuView {
    pub title: Seq<char>,
    pub entries: Seq<EntryView>,
}

impl View for Menu {
    type V = MenuView;

    open spec fn view(&self) -> MenuView {
        MenuView { title: self.title@, entries: views(self.entries@) }
    }
}

/// The menus of the program, and the one that stands in place of
/// [`MenuEntry::Recent`].
pub struct MenuBar {
    pub menus: Vec<Menu>,
    pub recent: Menu,
}

/// An entry of the program's own, without a key.
pub open spec fn plain_item(id: Seq<char>, label: Seq<char>) -> EntryView {
    EntryView::Item { id, label, accelerator: None }
}

/// An entry of the program's own, with a key.
pub open spec fn keyed_item(id: Seq<char>, label: Seq<char>, key: Seq<char>) -> EntryView {
    EntryView::Item { id, label, accelerator: Some(key) }
}

/// The label of a recently opened path: what it is, where it is, and how long
/// ago it was opened.
pub open spec fn recent_label(entry: RecentEntry, home: Seq<char>, now: u64) -> Seq<char> {
    let glyph = if entry.mode@ == "directory"@ {
        "📁"@
    } else {
        "📄"@
    };
    let place = glyph + "  "@ + shortened(entry.path@, home);
    let ago = relative_time(entry.last_opened, now);
    if ago.len() == 0 {
        place
    } else {
        place + "  —  "@ + ago
    }
}

/// The entry of a recently opened path.
pub open spec fn recent_item(entry: RecentEntry, home: Seq<char>, now: u64) -> EntryView {
    plain_item("recent:"@ + entry.path@, recent_label(entry, home, now))
}

/// The entries of the menu of recently opened paths.
pub open spec fn recent_entries(recent: Seq<RecentEntry>, home: Seq<char>, now: u64) -> Seq<
    EntryView,
> {
    let items = Seq::new(recent.len(), |i: int| recent_item(recent[i], home, now));
    if recent.len() == 0 {
        items
    } else {
        items + seq![EntryView::Separator, plain_item("clear_recent"@, "Clear Recent"@)]
    }
}

/// The menus of the program.
pub open spec fn menu_bar() -> Seq<MenuView> {
    seq![
        MenuView {
            title: "mdlive"@,
            entries: seq![
                EntryView::Native(NativeItem::About),
                plain_item("check_update"@, "Check for Updates..."@),
                EntryView::Separator,
                EntryView::Native(NativeItem::Services),
                EntryView::Separator,
                EntryView::Native(NativeItem::Hide),
                EntryView::Native(NativeItem::HideOthers),
                EntryView::Native(NativeItem::ShowAll),
                EntryView::Separator,
                EntryView::Native(NativeItem::Quit),
            ],
        },
        MenuView {
            title: "File"@,
            entries: seq![
                keyed_item("new_window"@, "New Window"@, "CmdOrCtrl+N"@),
                keyed_item("open"@, "Open..."@, "CmdOrCtrl+O"@),
                EntryView::Separator,
                EntryView::Recent,
                EntryView::Separator,
                keyed_item("close_tab"@, "Close Tab"@, "CmdOrCtrl+W"@),
                keyed_item("close_window_custom"@, "Close Window"@, "Shift+CmdOrCtrl+W"@),
            ],
        },
        MenuView {
            title: "Edit"@,
            entries: seq![
                EntryView::Native(NativeItem::Undo),
                EntryView::Native(NativeItem::Redo),
                EntryView::Separator,
                EntryView::Native(NativeItem::Cut),
                EntryView::Native(NativeItem::Copy),
                EntryView::Native(NativeItem::Paste),
                EntryView::Native(NativeItem::SelectAll),
            ],
        },
        MenuView {
            title: "View"@,
            entries: seq![EntryView::Native(NativeItem::Fullscreen)],
        },
        MenuView {
            title: "Window"@,
            entries: seq![
                EntryView::Native(NativeItem::Minimize),
                EntryView::Native(NativeItem::Maximize),
            ],
        },
    ]
}

fn item(id: &str, label: &str) -> (entry: MenuEntry)
    ensures
        entry@ == plain_item(id@, label@),
{
    MenuEntry::Item { id: id.to_owned(), label: label.to_owned(), accelerator: None }
}

fn item_with_key(id: &str, label: &str, key: &str) -> (entry: MenuEntry)
    ensures
        entry@ == keyed_item(id@, label@, key@),
{
    MenuEntry::Item {
        id: id.to_owned(),
        label: label.to_owned(),
        accelerator: Some(key.to_owned()),
    }
}

fn label_of(entry: &RecentEntry, home: &str, now: u64) -> (label: String)
    ensures
        label@ == recent_label(*entry, home@, now),
{
    let mut label = if same_text(entry.mode.as_str(), "directory") {
        "📁".to_owned()
    } else {
        "📄".to_owned()
    };
    label.append("  ");
    label.append(shorten_path(entry.path.as_str(), home).as_str());
    let ago = format_relative_time(entry.last_opened, now);
    proof {
        reveal_strlit("");
        assert(ago@.len() == 0 <==> ago@ =~= ""@);
    }
    if !same_text(ago.as_str(), "") {
        label.append("  —  ");
        label.append(ago.as_str());
    }
    label
}

fn recent_menu(recent: &Vec<RecentEntry>, home: &str, now: u64) -> (menu: Menu)
    ensures
        menu@ == (MenuView {
            title: "Open Recent"@,
            entries: recent_entries(recent@, home@, now),
        }),
{
    let mut entries: Vec<MenuEntry> = Vec::new();
    for i in 0..recent.len()
        invariant
            entries@.len() == i,
            forall|j: int|
                0 <= j < i ==> (#[trigger] entries@[j])@ == recent_item(recent@[j], home@, now),
    {
        let entry = &recent[i];
        let id = joined("recent:", entry.path.as_str());
        entries.push(item(id.as_str(), label_of(entry, home, now).as_str()));
    }
    if recent.len() > 0 {
        entries.push(MenuEntry::Separator);
        entries.push(item("clear_recent", "Clear Recent"));
    }
    assert(views(entries@) =~= recent_entries(recent@, home@, now));
    Menu { title: "Open Recent".to_owned(), entries }
}

fn menu(title: &str, entries: Vec<MenuEntry>) -> (menu: Menu)
    ensures
        menu@ == (MenuView { title: title@, entries: views(entries@) }),
{
    Menu { title: title.to_owned(), entries }
}

/// The menus of the program, with the recently opened paths of a configuration:
/// the latest first.
pub fn build_menu(config: &AppConfig, home: &str, now: u64) -> (bar: MenuBar)
    ensures
        views(bar.menus@) == menu_bar(),
        bar.recent@ == (MenuView {
            title: "Open Recent"@,
            entries: recent_entries(config.recent@, home@, now),
        }),
{
    let app_menu = menu(
        "mdlive",
        vec![
            MenuEntry::Native(NativeItem::About),
            item("check_update", "Check for Updates..."),
            MenuEntry::Separator,
            MenuEntry::Native(NativeItem::Services),
            MenuEntry::Separator,
            MenuEntry::Native(NativeItem::Hide),
            MenuEntry::Native(NativeItem::HideOthers),
            MenuEntry::Native(NativeItem::ShowAll),
            MenuEntry::Separator,
            MenuEntry::Native(NativeItem::Quit),
        ],
    );
    let file_menu = menu(
        "File",
        vec![
            item_with_key("new_window", "New Window", "CmdOrCtrl+N"),
            item_with_key("open", "Open...", "CmdOrCtrl+O"),
            MenuEntry::Separator,
            MenuEntry::Recent,
            MenuEntry::Separator,
            item_with_key("close_tab", "Close Tab", "CmdOrCtrl+W"),
            item_with_key("close_window_custom", "Close Window", "Shift+CmdOrCtrl+W"),
        ],
    );
    let edit_menu = menu(
        "Edit",
        vec![
            MenuEntry::Native(NativeItem::Undo),
            MenuEntry::Native(NativeItem::Redo),
            MenuEntry::Separator,
            MenuEntry::Native(NativeItem::Cut),
            MenuEntry::Native(NativeItem::Copy),
            MenuEntry::Native(NativeItem::Paste),
            MenuEntry::Native(NativeItem::SelectAll),
        ],
    );
    let view_menu = menu("View", vec![MenuEntry::Native(NativeItem::Fullscreen)]);
    let window_menu = menu(
        "Window",
        vec![
            MenuEntry::Native(NativeItem::Minimize),
            MenuEntry::Native(NativeItem::Maximize),
        ],
    );
    proof {
        assert(app_menu@.entries =~= menu_bar()[0].entries);
        assert(file_menu@.entries =~= menu_bar()[1].entries);
        assert(edit_menu@.entries =~= menu_bar()[2].entries);
        assert(view_menu@.entries =~= menu_bar()[3].entries);
        assert(window_menu@.entries =~= menu_bar()[4].entries);
    }
    let menus = vec![app_menu, file_menu, edit_menu, view_menu, window_menu];
    assert(views(menus@) =~= menu_bar());
    MenuBar { menus, recent: recent_menu(&config.recent, home, now) }
}

/// What an entry of the menu does.
pub enum MenuAction {
    NewWindow,
    Open,
    OpenRecent(String),
    ClearRecent,
    CheckUpdate,
    CloseTab,
    CloseWindow,
    Nothing,
}

/// The view of a [`MenuAction`].
pub enum ActionView {
    NewWindow,
    Open,
    OpenRecent(Seq<char>),
    ClearRecent,
    CheckUpdate,
    CloseTab,
    CloseWindow,
    Nothing,
}

impl View for MenuAction {
    type V = ActionView;

    open spec fn view(&self) -> ActionView {
        match *self {
            MenuAction::NewWindow => ActionView::NewWindow,
            MenuAction::Open => ActionView::Open,
            MenuAction::OpenRecent(path) => ActionView::OpenRecent(path@),
            MenuAction::ClearRecent => ActionView::ClearRecent,
            MenuAction::CheckUpdate => ActionView::CheckUpdate,
            MenuAction::CloseTab => ActionView::CloseTab,
            MenuAction::CloseWindow => ActionView::CloseWindow,
            MenuAction::Nothing => ActionView::Nothing,
        }
    }
}

/// What the entry with an identifier does.
pub open spec fn action_of(id: Seq<char>) -> ActionView {
    if id == "new_window"@ {
        ActionView::NewWindow
    } else if id == "open"@ {
        ActionView::Open
    } else if "recent:"@.is_prefix_of(id) {
        ActionView::OpenRecent(id.skip("recent:"@.len() as int))
    } else if id == "clear_recent"@ {
        ActionView::ClearRecent
    } else if id == "check_update"@ {
        ActionView::CheckUpdate
    } else if id == "close_tab"@ {
        ActionView::CloseTab
    } else if id == "close_window_custom"@ {
        ActionView::CloseWindow
    } else {
        ActionView::Nothing
    }
}

/// What the entry with an identifier does.
pub fn menu_action(id: &str) -> (action: MenuAction)
    ensures
        action@ == action_of(id@),
{
    if same_text(id, "new_window") {
        return MenuAction::NewWindow;
    }
    if same_text(id, "open") {
        return MenuAction::Open;
    }
    match text_after(id, "recent:") {
        Some(path) => {
            return MenuAction::OpenRecent(path);
        },
        None => {},
    }
    if same_text(id, "clear_recent") {
        MenuAction::ClearRecent
    } else if same_text(id, "check_update") {
        MenuAction::CheckUpdate
    } else if same_text(id, "close_tab") {
        MenuAction::CloseTab
    } else if same_text(id, "close_window_custom") {
        MenuAction::CloseWindow
    } else {
        MenuAction::Nothing
    }
}

/// Choosing a recently opened path in the menu opens that path.
pub proof fn law_recent_item_opens_its_path(entry: RecentEntry, home: Seq<char>, now: u64)
    ensures
        recent_item(entry, home, now) matches EntryView::Item { id, .. } && action_of(id)
            == ActionView::OpenRecent(entry.path@),
{
    let id = "recent:"@ + entry.path@;
    reveal_strlit("recent:");
    reveal_strlit("new_window");
    reveal_strlit("open");
    assert(id[0] == 'r');
    assert("recent:"@ =~= id.subrange(0, "recent:"@.len() as int));
    assert(id.skip("recent:"@.len() as int) =~= entry.path@);
}

/// Every entry of the program's own in the menus does something.
pub proof fn law_every_item_acts(menu: int, entry: int)
    requires
        0 <= menu < menu_bar().len(),
        0 <= entry < menu_bar()[menu].entries.len(),
    ensures
        menu_bar()[menu].entries[entry] matches EntryView::Item { id, .. } ==> action_of(id)
            != ActionView::Nothing,
{
}

/// A path in the home directory is written with `~`, and the home directory put
/// back in its place gives the path.
pub proof fn law_shortened_path_keeps_its_rest(path: Seq<char>, home: Seq<char>)
    requires
        home.len() > 0,
        home.is_prefix_of(path),
    ensures
        "~"@.is_prefix_of(shortened(path, home)),
        home + shortened(path, home).skip("~"@.len() as int) == path,
{
    let short = shortened(path, home);
    assert("~"@ =~= short.subrange(0, "~"@.len() as int));
    assert(short.skip("~"@.len() as int) =~= path.skip(home.len() as int));
    assert(home =~= path.subrange(0, home.len() as int));
    assert(home + path.skip(home.len() as int) =~= path);
}

/// How long ago a time was is told in whole units, the largest that fit: seconds are
/// not counted, and after them come minutes, hours, days, weeks, months of 30 days and
/// years of 365 days. A time to come counts as now, and the time 0 as none.
pub proof fn law_age_is_told_in_the_largest_unit(then: u64, now: u64, n: nat)
    requires
        then > 0,
    ensures
        relative_time(0, now).len() == 0,
        now < then + 60 ==> relative_time(then, now) == "now"@,
        then + 60 <= now < then + 3_600 && n * 60 <= now - then < (n + 1) * 60 ==> relative_time(
            then,
            now,
        ) == decimal(n) + "m"@,
        then + 3_600 <= now < then + 86_400 && n * 3_600 <= now - then < (n + 1) * 3_600
            ==> relative_time(then, now) == decimal(n) + "h"@,
        then + 86_400 <= now < then + 604_800 && n * 86_400 <= now - then < (n + 1) * 86_400
            ==> relative_time(then, now) == decimal(n) + "d"@,
        then + 604_800 <= now < then + 2_592_000 && n * 604_800 <= now - then < (n + 1) * 604_800
            ==> relative_time(then, now) == decimal(n) + "w"@,
        then + 2_592_000 <= now < then + 31_536_000 && n * 2_592_000 <= now - then < (n + 1)
            * 2_592_000 ==> relative_time(then, now) == decimal(n) + "mo"@,
        then + 31_536_000 <= now && n * 31_536_000 <= now - then < (n + 1) * 31_536_000
            ==> relative_time(then, now) == decimal(n) + "y"@,
{
    reveal_strlit("");
}

/// The home directory is written as its text, or as nothing where it is not known.
pub proof fn law_home_is_written_as_text(home: Seq<u8>)
    ensures
        home_text(Some(home)) == crate::text::lossy_text(home),
        home_text(None).len() == 0,
{
    reveal_strlit("");
}

/// A path that does not start with the home directory is written as it is, and so is
/// every path where the home directory is not known.
pub proof fn law_paths_elsewhere_are_written_whole(path: Seq<char>, home: Seq<char>)
    requires
        home.len() == 0 || !home.is_prefix_of(path),
    ensures
        shortened(path, home) == path,
{
}

/// The label of a recently opened path shows whether it is a directory, the path in
/// short, and how long ago it was opened if that is known.
pub proof fn law_label_shows_kind_place_and_age(entry: RecentEntry, home: Seq<char>, now: u64)
    ensures
        ({
            let label = recent_label(entry, home, now);
            let directory = "📁"@ + "  "@ + shortened(entry.path@, home);
            let file = "📄"@ + "  "@ + shortened(entry.path@, home);
            let ago = relative_time(entry.last_opened, now);
            &&& entry.mode@ == "directory"@ && entry.last_opened == 0 ==> label == directory
            &&& entry.mode@ != "directory"@ && entry.last_opened == 0 ==> label == file
            &&& entry.mode@ == "directory"@ && entry.last_opened > 0 ==> label == directory
                + "  —  "@ + ago
            &&& entry.mode@ != "directory"@ && entry.last_opened > 0 ==> label == file + "  —  "@
                + ago
        }),
{
    reveal_strlit("");
    reveal_strlit("now");
    reveal_strlit("m");
    reveal_strlit("h");
    reveal_strlit("d");
    reveal_strlit("w");
    reveal_strlit("mo");
    reveal_strlit("y");
    assert(entry.last_opened > 0 ==> relative_time(entry.last_opened, now).len() > 0);
}

/// The menu of recently opened paths has an entry for each of them, in order, and then
/// one that forgets them; it is empty if there are none.
pub proof fn law_recent_menu_lists_every_path(
    recent: Seq<RecentEntry>,
    home: Seq<char>,
    now: u64,
    i: int,
)
    ensures
        ({
            let entries = recent_entries(recent, home, now);
            &&& recent.len() == 0 ==> entries.len() == 0
            &&& recent.len() > 0 ==> entries.len() == recent.len() + 2
                && entries[recent.len() as int] == EntryView::Separator && entries.last() == (
            EntryView::Item {
                id: "clear_recent"@,
                label: "Clear Recent"@,
                accelerator: None,
            })
            &&& 0 <= i < recent.len() ==> entries[i] == (EntryView::Item {
                id: "recent:"@ + recent[i].path@,
                label: recent_label(recent[i], home, now),
                accelerator: None,
            }) && entries[i] == recent_item(recent[i], home, now)
        }),
{
}

/// What the entries of the program's own are called, which keys they have, and in which
/// menu each is.
pub proof fn law_menus_hold_the_entries()
    ensures
        menu_bar().len() == 5,
        menu_bar()[0].title == "mdlive"@,
        menu_bar()[1].title == "File"@,
        menu_bar()[2].title == "Edit"@,
        menu_bar()[3].title == "View"@,
        menu_bar()[4].title == "Window"@,
        menu_bar()[0].entries.contains(
            (EntryView::Item {
                id: "check_update"@,
                label: "Check for Updates..."@,
                accelerator: None,
            }),
        ),
        menu_bar()[1].entries.contains(
            (EntryView::Item {
                id: "new_window"@,
                label: "New Window"@,
                accelerator: Some("CmdOrCtrl+N"@),
            }),
        ),
        menu_bar()[1].entries.contains(
            (EntryView::Item {
                id: "open"@,
                label: "Open..."@,
                accelerator: Some("CmdOrCtrl+O"@),
            }),
        ),
        menu_bar()[1].entries.contains(EntryView::Recent),
        menu_bar()[1].entries.contains(
            (EntryView::Item {
                id: "close_tab"@,
                label: "Close Tab"@,
                accelerator: Some("CmdOrCtrl+W"@),
            }),
        ),
        menu_bar()[1].entries.contains(
            (EntryView::Item {
                id: "close_window_custom"@,
                label: "Close Window"@,
                accelerator: Some("Shift+CmdOrCtrl+W"@),
            }),
        ),
{
    let app = menu_bar()[0].entries;
    let file = menu_bar()[1].entries;
    assert(app.contains(app[1]));
    assert(file.contains(file[0]));
    assert(file.contains(file[1]));
    assert(file.contains(file[3]));
    assert(file.contains(file[5]));
    assert(file.contains(file[6]));
}

/// The entries that the system supplies stand in the menus that they belong to, each of
/// them once.
pub proof fn law_menus_hold_the_native_entries()
    ensures
        menu_bar()[0].entries.len() == 10,
        menu_bar()[0].entries[0] == EntryView::Native(NativeItem::About),
        menu_bar()[0].entries[3] == EntryView::Native(NativeItem::Services),
        menu_bar()[0].entries[5] == EntryView::Native(NativeItem::Hide),
        menu_bar()[0].entries[6] == EntryView::Native(NativeItem::HideOthers),
        menu_bar()[0].entries[7] == EntryView::Native(NativeItem::ShowAll),
        menu_bar()[0].entries[9] == EntryView::Native(NativeItem::Quit),
        menu_bar()[1].entries.len() == 7,
        menu_bar()[2].entries.len() == 7,
        menu_bar()[2].entries[0] == EntryView::Native(NativeItem::Undo),
        menu_bar()[2].entries[1] == EntryView::Native(NativeItem::Redo),
        menu_bar()[2].entries[3] == EntryView::Native(NativeItem::Cut),
        menu_bar()[2].entries[4] == EntryView::Native(NativeItem::Copy),
        menu_bar()[2].entries[5] == EntryView::Native(NativeItem::Paste),
        menu_bar()[2].entries[6] == EntryView::Native(NativeItem::SelectAll),
        menu_bar()[3].entries == seq![EntryView::Native(NativeItem::Fullscreen)],
        menu_bar()[4].entries == seq![
            EntryView::Native(NativeItem::Minimize),
            EntryView::Native(NativeItem::Maximize),
        ],
{
}

/// What each entry of the program's own does. An identifier behind `recent:` is a path
/// to be opened, whatever the path is, and any other identifier does nothing.
pub proof fn law_entries_do_what_they_are_called(path: Seq<char>, id: Seq<char>)
    ensures
        action_of("new_window"@) == ActionView::NewWindow,
        action_of("open"@) == ActionView::Open,
        action_of("clear_recent"@) == ActionView::ClearRecent,
        action_of("check_update"@) == ActionView::CheckUpdate,
        action_of("close_tab"@) == ActionView::CloseTab,
        action_of("close_window_custom"@) == ActionView::CloseWindow,
        action_of("recent:"@ + path) == ActionView::OpenRecent(path),
        id != "new_window"@ && id != "open"@ && id != "clear_recent"@ && id != "check_update"@ && id
            != "close_tab"@ && id != "close_window_custom"@ && !"recent:"@.is_prefix_of(id)
            ==> action_of(id) == ActionView::Nothing,
{
    reveal_strlit("recent:");
    reveal_strlit("new_window");
    reveal_strlit("open");
    reveal_strlit("clear_recent");
    reveal_strlit("check_update");
    reveal_strlit("close_tab");
    reveal_strlit("close_window_custom");
    let r = "recent:"@;
    assert(r[0] == 'r' && "new_window"@[0] == 'n' && "open"@[0] == 'o' && "clear_recent"@[0] == 'c'
        && "check_update"@[0] == 'c' && "close_tab"@[0] == 'c' && "close_window_custom"@[0] == 'c');
    assert("clear_recent"@[1] == 'l' && "check_update"@[1] == 'h');
    assert("clear_recent"@.len() == 12 && "check_update"@.len() == 12 && "close_tab"@.len() == 9
        && "close_window_custom"@.len() == 19);
    let opened = r + path;
    assert(opened[0] == 'r');
    assert(r =~= opened.subrange(0, r.len() as int));
    assert(opened.skip(r.len() as int) =~= path);
    assert("new_window"@.subrange(0, r.len() as int)[0] != r[0]);
    assert("clear_recent"@.subrange(0, r.len() as int)[0] != r[0]);
    assert("check_update"@.subrange(0, r.len() as int)[0] != r[0]);
    assert("close_tab"@.subrange(0, r.len() as int)[0] != r[0]);
    assert("close_window_custom"@.subrange(0, r.len() as int)[0] != r[0]);
    assert("open"@.len() == 4);
}

/// What is said of an entry, a menu and an action is what they hold.
pub proof fn law_views_show_what_is_held(
    id: String,
    label: String,
    accelerator: Option<String>,
    native: NativeItem,
    menu: Menu,
    home: &[u8],
)
    ensures
        (MenuEntry::Item { id, label, accelerator })@ == (EntryView::Item {
            id: id@,
            label: label@,
            accelerator: crate::state::text_view(accelerator),
        }),
        MenuEntry::Separator@ == EntryView::Separator,
        MenuEntry::Native(native)@ == EntryView::Native(native),
        MenuEntry::Recent@ == EntryView::Recent,
        menu@.title == menu.title@,
        menu@.entries == views(menu.entries@),
        MenuAction::NewWindow@ == ActionView::NewWindow,
        MenuAction::Open@ == ActionView::Open,
        MenuAction::OpenRecent(id)@ == ActionView::OpenRecent(id@),
        MenuAction::ClearRecent@ == ActionView::ClearRecent,
        MenuAction::CheckUpdate@ == ActionView::CheckUpdate,
        MenuAction::CloseTab@ == ActionView::CloseTab,
        MenuAction::CloseWindow@ == ActionView::CloseWindow,
        MenuAction::Nothing@ == ActionView::Nothing,
        bytes_view(Some(home)) == Some(home@),
        bytes_view(None) is None,
{
}

} // verus!
