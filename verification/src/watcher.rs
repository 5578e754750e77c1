//! What follows from changes on disk.

use vstd::prelude::*;

use crate::path::path_key_below;
use crate::state::{DiskVersion, FoundFile, LoadedFile, MarkdownState, ServerMessage};
#[allow(unused_imports)]
use crate::moves::{files_outside, is_under, moved_files};
#[allow(unused_imports)]
use crate::path::key_below;
#[allow(unused_imports)]
use crate::state::{MessageView, StateView, TrackedView};
#[allow(unused_imports)]
use crate::order::views;
use crate::text::from_utf8;
use crate::util::{is_image_file, is_mdlive_path, is_supported_file};

verus! {

/// Which names a rename event tells of.
pub enum RenameKind {
    /// The old and the new name.
    Both,
    /// The old name.
    From,
    /// The new name.
    To,
    /// One name, of which it is not known whether it is the old or the new one.
    Any,
    Other,
}

/// What happened on disk.
pub enum ChangeKind {
    Rename(RenameKind),
    Create,
    ModifyData,
    /// A modification of anything but names and data.
    ModifyOther,
    Remove { folder: bool },
    Other,
}

/// A path that an event tells of, and what stands there now.
pub struct EventPath {
    pub path: Vec<u8>,
    pub is_dir: bool,
    pub is_file: bool,
    pub exists: bool,
}

/// A change on disk.
pub struct ChangeEvent {
    pub kind: ChangeKind,
    pub paths: Vec<EventPath>,
}

/// One thing to be done about a change on disk.
pub enum Step {
    /// A directory moved from the first path to the second.
    DirMoved(Vec<u8>, Vec<u8>),
    /// A directory appeared, perhaps with files in it.
    DirAdded(Vec<u8>),
    /// What was no file of a supported kind vanished.
    DirRemoved { path: Vec<u8>, folder: bool },
    /// A file appeared or its content changed.
    FileChanged(Vec<u8>),
    /// A path vanished, which counts only if it is still gone a little later:
    /// editors save by renaming the old file away and making a new one.
    RemoveLater(Vec<u8>),
    /// An image changed.
    ImageChanged,
}

/// The view of a [`Step`].
pub enum StepView {
    DirMoved(Seq<u8>, Seq<u8>),
    DirAdded(Seq<u8>),
    DirRemoved { path: Seq<u8>, folder: bool },
    FileChanged(Seq<u8>),
    RemoveLater(Seq<u8>),
    ImageChanged,
}

impl View for Step {
    type V = StepView;

    open spec fn view(&self) -> StepView {
        match *self {
            Step::DirMoved(from, to) => StepView::DirMoved(from@, to@),
            Step::DirAdded(path) => StepView::DirAdded(path@),
            Step::DirRemoved { path, folder } => StepView::DirRemoved { path: path@, folder },
            Step::FileChanged(path) => StepView::FileChanged(path@),
            Step::RemoveLater(path) => StepView::RemoveLater(path@),
            Step::ImageChanged => StepView::ImageChanged,
        }
    }
}

/// Whether a path names an image. A path that is not valid UTF-8 does not.
pub open spec fn is_image_path(path: Seq<u8>) -> bool {
    match crate::text::utf8_text(path) {
        Some(text) => crate::util::is_image(vstd::utf8::encode_utf8(text)),
        None => crate::util::is_image(vstd::utf8::encode_utf8(""@)),
    }
}

fn names_image_path(path: &[u8]) -> (r: bool)
    ensures
        r == is_image_path(path@),
{
    match from_utf8(path) {
        Some(text) => is_image_file(text.as_str()),
        None => is_image_file(""),
    }
}

/// What is to be done about a directory, or what may have been one.
pub open spec fn dir_steps(kind: ChangeKind, p: EventPath) -> Seq<StepView> {
    match kind {
        ChangeKind::Create if p.is_dir => seq![StepView::DirAdded(p.path@)],
        ChangeKind::Remove { folder } if !p.exists => seq![
            StepView::DirRemoved { path: p.path@, folder },
        ],
        _ => Seq::<StepView>::empty(),
    }
}

/// What is to be done about one path of an event that is not a rename.
pub open spec fn path_steps(kind: ChangeKind, p: EventPath) -> Seq<StepView> {
    if crate::util::is_supported(p.path@) {
        match kind {
            ChangeKind::Create | ChangeKind::ModifyData => seq![StepView::FileChanged(p.path@)],
            ChangeKind::Remove { .. } => seq![StepView::RemoveLater(p.path@)],
            _ => Seq::<StepView>::empty(),
        }
    } else if p.is_file && is_image_path(p.path@) {
        match kind {
            ChangeKind::Create | ChangeKind::ModifyData | ChangeKind::ModifyOther
            | ChangeKind::Remove { .. } => seq![StepView::ImageChanged],
            _ => Seq::<StepView>::empty(),
        }
    } else {
        dir_steps(kind, p)
    }
}

/// What is to be done about the first `n` paths of such an event.
pub open spec fn paths_steps(kind: ChangeKind, paths: Seq<EventPath>, n: nat) -> Seq<StepView>
    decreases n,
{
    if n == 0 || n > paths.len() {
        Seq::<StepView>::empty()
    } else {
        paths_steps(kind, paths, (n - 1) as nat) + path_steps(kind, paths[n - 1])
    }
}

/// What is to be done about a path that something was renamed to.
pub open spec fn arrival_steps(p: EventPath) -> Seq<StepView> {
    if p.is_dir {
        seq![StepView::DirAdded(p.path@)]
    } else {
        seq![StepView::FileChanged(p.path@)]
    }
}

/// What is to be done about a rename.
pub open spec fn rename_steps(mode: RenameKind, paths: Seq<EventPath>) -> Seq<StepView> {
    match mode {
        RenameKind::Both => if paths.len() != 2 {
            Seq::<StepView>::empty()
        } else if paths[1].is_dir {
            seq![StepView::DirMoved(paths[0].path@, paths[1].path@)]
        } else {
            seq![StepView::FileChanged(paths[1].path@)]
        },
        RenameKind::From => if paths.len() == 0 {
            Seq::<StepView>::empty()
        } else {
            seq![StepView::RemoveLater(paths[0].path@)]
        },
        RenameKind::To => if paths.len() == 0 {
            Seq::<StepView>::empty()
        } else {
            arrival_steps(paths[0])
        },
        RenameKind::Any => if paths.len() == 0 || !paths[0].is_dir && !paths[0].exists {
            Seq::<StepView>::empty()
        } else {
            arrival_steps(paths[0])
        },
        RenameKind::Other => Seq::<StepView>::empty(),
    }
}

/// Whether an event tells of a path in one of the program's own directories.
pub open spec fn touches_own_dir(paths: Seq<EventPath>) -> bool {
    exists|i: int| 0 <= i < paths.len() && crate::util::in_mdlive((#[trigger] paths[i]).path@)
}

/// What is to be done about an event. Events in the program's own directories
/// are passed over.
pub open spec fn event_steps(event: ChangeEvent) -> Seq<StepView> {
    if touches_own_dir(event.paths@) {
        Seq::<StepView>::empty()
    } else {
        match event.kind {
            ChangeKind::Rename(mode) => rename_steps(mode, event.paths@),
            _ => paths_steps(event.kind, event.paths@, event.paths@.len()),
        }
    }
}

fn copied(path: &Vec<u8>) -> (out: Vec<u8>)
    ensures
        out@ == path@,
{
    vstd::slice::slice_to_vec(path.as_slice())
}

/// What is to be done about a directory, or what may have been one: the
/// sidebar shows directories too, so that one may appear or vanish without any
/// event for a file.
fn handle_dir_event(kind: &ChangeKind, p: &EventPath, steps: &mut Vec<Step>)
    ensures
        views(final(steps)@) == views(old(steps)@) + dir_steps(*kind, *p),
{
    let ghost held = steps@;
    match kind {
        ChangeKind::Create => {
            if p.is_dir {
                steps.push(Step::DirAdded(copied(&p.path)));
            }
        },
        ChangeKind::Remove { folder } => {
            if !p.exists {
                steps.push(Step::DirRemoved { path: copied(&p.path), folder: *folder });
            }
        },
        _ => {},
    }
    assert(views(steps@) =~= views(held) + dir_steps(*kind, *p));
}

fn handle_path_event(kind: &ChangeKind, p: &EventPath, steps: &mut Vec<Step>)
    ensures
        views(final(steps)@) == views(old(steps)@) + path_steps(*kind, *p),
{
    let ghost held = steps@;
    if is_supported_file(p.path.as_slice()) {
        match kind {
            ChangeKind::Create | ChangeKind::ModifyData => {
                steps.push(Step::FileChanged(copied(&p.path)));
            },
            ChangeKind::Remove { .. } => {
                steps.push(Step::RemoveLater(copied(&p.path)));
            },
            _ => {},
        }
        assert(views(steps@) =~= views(held) + path_steps(*kind, *p));
    } else if p.is_file && names_image_path(p.path.as_slice()) {
        match kind {
            ChangeKind::Create | ChangeKind::ModifyData | ChangeKind::ModifyOther
            | ChangeKind::Remove { .. } => {
                steps.push(Step::ImageChanged);
            },
            _ => {},
        }
        assert(views(steps@) =~= views(held) + path_steps(*kind, *p));
    } else {
        handle_dir_event(kind, p, steps);
    }
}

fn handle_arrival(p: &EventPath) -> (step: Step)
    ensures
        seq![step@] == arrival_steps(*p),
{
    if p.is_dir {
        Step::DirAdded(copied(&p.path))
    } else {
        Step::FileChanged(copied(&p.path))
    }
}

fn handle_rename(mode: &RenameKind, paths: &Vec<EventPath>) -> (step: Option<Step>)
    ensures
        match step {
            Some(s) => rename_steps(*mode, paths@) == seq![s@],
            None => rename_steps(*mode, paths@) == Seq::<StepView>::empty(),
        },
{
    match mode {
        RenameKind::Both => if paths.len() != 2 {
            None
        } else if paths[1].is_dir {
            Some(Step::DirMoved(copied(&paths[0].path), copied(&paths[1].path)))
        } else {
            Some(Step::FileChanged(copied(&paths[1].path)))
        },
        RenameKind::From => if paths.len() == 0 {
            None
        } else {
            Some(Step::RemoveLater(copied(&paths[0].path)))
        },
        RenameKind::To => if paths.len() == 0 {
            None
        } else {
            Some(handle_arrival(&paths[0]))
        },
        RenameKind::Any => if paths.len() == 0 || !paths[0].is_dir && !paths[0].exists {
            None
        } else {
            Some(handle_arrival(&paths[0]))
        },
        RenameKind::Other => None,
    }
}

/// What is to be done about an event, in order.
pub fn handle_file_event(event: &ChangeEvent) -> (steps: Vec<Step>)
    ensures
        views(steps@) == event_steps(*event),
{
    let mut steps: Vec<Step> = Vec::new();
    assert(views(steps@) =~= Seq::<StepView>::empty());
    for i in 0..event.paths.len()
        invariant
            views(steps@) == Seq::<StepView>::empty(),
            forall|j: int|
                0 <= j < i ==> !crate::util::in_mdlive((#[trigger] event.paths@[j]).path@),
    {
        if is_mdlive_path(event.paths[i].path.as_slice()) {
            assert(touches_own_dir(event.paths@));
            return steps;
        }
    }
    match &event.kind {
        ChangeKind::Rename(mode) => {
            match handle_rename(mode, &event.paths) {
                Some(step) => {
                    steps.push(step);
                    assert(views(steps@) =~= seq![step@]);
                },
                None => {},
            }
        },
        _ => {
            for i in 0..event.paths.len()
                invariant
                    views(steps@) == paths_steps(event.kind, event.paths@, i as nat),
            {
                handle_path_event(&event.kind, &event.paths[i], &mut steps);
            }
        },
    }
    steps
}

/// The canonical form of a path, or the path itself where there is none.
pub open spec fn resolved(path: Seq<u8>, canonical: Option<&[u8]>) -> Seq<u8> {
    match canonical {
        Some(c) => c@,
        None => path,
    }
}

/// The key of a path: its canonical form, or itself where there is none, below
/// the base directory.
pub fn rel_key(base_dir: &[u8], path: &[u8], canonical: Option<&[u8]>) -> (key: String)
    ensures
        key@ == key_below(base_dir@, resolved(path@, canonical)),
{
    match canonical {
        Some(c) => path_key_below(base_dir, c),
        None => path_key_below(base_dir, path),
    }
}

/// What is tracked once the first `n` found files are, where their keys were
/// free and they could be read.
pub open spec fn added_from(
    base_dir: Seq<u8>,
    before: Map<Seq<char>, TrackedView>,
    files: Seq<FoundFile>,
    n: nat,
) -> Map<Seq<char>, TrackedView>
    decreases n,
{
    if n == 0 || n > files.len() {
        before
    } else {
        let m = added_from(base_dir, before, files, (n - 1) as nat);
        let path = files[n - 1].resolved();
        let key = key_below(base_dir, path);
        match files[n - 1].read {
            Ok(loaded) if !m.contains_key(key) => m.insert(key, loaded.as_tracked(path, path)),
            _ => m,
        }
    }
}

/// Whether what the pages are told is to reload, or nothing.
pub open spec fn reloads(message: Option<ServerMessage>, told: bool) -> bool {
    match message {
        Some(m) => told && m@ == MessageView::Reload,
        None => !told,
    }
}

impl MarkdownState {
    /// A directory appeared: the supported files in it are tracked. Without
    /// the sidebar only the one file that is served counts.
    pub fn handle_dir_add(&mut self, files: Vec<FoundFile>) -> (message: Option<ServerMessage>)
        requires
            old(self).wf(),
        ensures
            final(self).wf(),
            message is None ==> final(self)@ == old(self)@,
            reloads(message, old(self)@.is_directory_mode),
            final(self)@ == (StateView {
                files: if old(self)@.is_directory_mode {
                    added_from(old(self)@.base_dir, old(self)@.files, files@, files@.len())
                } else {
                    old(self)@.files
                },
                ..old(self)@
            }),
    {
        if !self.is_directory_mode {
            return None;
        }
        let ghost before = self@;
        let ghost all = files@;
        for file in it: files
            invariant
                all == it.seq(),
                self.wf(),
                self@ == (StateView {
                    files: added_from(before.base_dir, before.files, all, it.index() as nat),
                    ..before
                }),
        {
            let path = match file.canonical {
                Some(canonical) => canonical,
                None => file.path,
            };
            let _ = self.add_tracked_file(path, file.read);
        }
        Some(ServerMessage::Reload)
    }

    /// A directory moved: the files in it stay tracked under their new keys.
    pub fn handle_dir_move(
        &mut self,
        from: &[u8],
        from_canonical: Option<&[u8]>,
        to: &[u8],
        to_canonical: Option<&[u8]>,
        canonical: &Vec<(Vec<u8>, Vec<u8>)>,
    ) -> (message: Option<ServerMessage>)
        requires
            old(self).wf(),
        ensures
            final(self).wf(),
            message is None ==> final(self)@ == old(self)@,
            reloads(message, old(self)@.is_directory_mode),
            final(self)@ == (StateView {
                files: if old(self)@.is_directory_mode {
                    moved_files(
                        old(self)@.files,
                        key_below(old(self)@.base_dir, resolved(from@, from_canonical)),
                        key_below(old(self)@.base_dir, resolved(to@, to_canonical)),
                        old(self)@.base_dir,
                        canonical@,
                    )
                } else {
                    old(self)@.files
                },
                ..old(self)@
            }),
    {
        if !self.is_directory_mode {
            return None;
        }
        let from_key = rel_key(self.base_dir.as_slice(), from, from_canonical);
        let to_key = rel_key(self.base_dir.as_slice(), to, to_canonical);
        self.move_tracked_prefix(from_key.as_str(), to_key.as_str(), canonical);
        Some(ServerMessage::Reload)
    }

    /// A path vanished that was no file of a supported kind: whatever was
    /// tracked below it is not any more.
    pub fn handle_dir_remove(&mut self, path: &[u8], canonical: Option<&[u8]>, folder: bool) -> (message:
        Option<ServerMessage>)
        requires
            old(self).wf(),
        ensures
            final(self).wf(),
            message is None ==> final(self)@ == old(self)@,
            ({
                let before = old(self)@;
                let key = key_below(before.base_dir, resolved(path@, canonical));
                if before.is_directory_mode {
                    reloads(
                        message,
                        folder || exists|k: Seq<char>| #[trigger]
                            before.files.contains_key(k) && is_under(k, key),
                    ) && final(self)@ == (StateView {
                        files: files_outside(before.files, key),
                        ..before
                    })
                } else {
                    message is None && final(self)@ == before
                }
            }),
    {
        if !self.is_directory_mode {
            return None;
        }
        let ghost before = self@.files;
        proof {
            self.tracked_files.lemma_keys();
        }
        let key = rel_key(self.base_dir.as_slice(), path, canonical);
        let dropped = self.remove_tracked_prefix(key.as_str());
        proof {
            lemma_some_under(before, key@);
        }
        if dropped > 0 || folder {
            Some(ServerMessage::Reload)
        } else {
            None
        }
    }

    /// A path vanished a little while ago. If it is still gone, the file that
    /// was tracked there, or else all files below it, are not tracked any more.
    pub fn handle_deferred_remove(&mut self, path: &[u8], exists_again: bool) -> (message: Option<
        ServerMessage,
    >)
        requires
            old(self).wf(),
        ensures
            final(self).wf(),
            message is None ==> final(self)@ == old(self)@,
            ({
                let before = old(self)@;
                let key = key_below(before.base_dir, path@);
                if exists_again {
                    message is None && final(self)@ == before
                } else if before.files.contains_key(key) {
                    reloads(message, true) && final(self)@ == (StateView {
                        files: before.files.remove(key),
                        ..before
                    })
                } else {
                    reloads(
                        message,
                        exists|k: Seq<char>| #[trigger]
                            before.files.contains_key(k) && is_under(k, key),
                    ) && final(self)@ == (StateView {
                        files: files_outside(before.files, key),
                        ..before
                    })
                }
            }),
    {
        if exists_again {
            return None;
        }
        let key = self.key_of(path);
        let ghost before = self@.files;
        proof {
            self.tracked_files.lemma_keys();
        }
        if self.remove_tracked_file(key.as_str()) {
            return Some(ServerMessage::Reload);
        }
        assert(self@.files =~= before);
        let dropped = self.remove_tracked_prefix(key.as_str());
        proof {
            lemma_some_under(before, key@);
        }
        if dropped > 0 {
            Some(ServerMessage::Reload)
        } else {
            None
        }
    }

    /// A file appeared or its content changed. A tracked file is brought up to
    /// date; another one is tracked from now on, if the sidebar is shown.
    /// Files of other kinds do not count.
    pub fn handle_file_change(
        &mut self,
        path: Vec<u8>,
        canonical: Option<Vec<u8>>,
        disk: Result<DiskVersion, String>,
        read: Result<LoadedFile, String>,
    ) -> (message: Option<ServerMessage>)
        requires
            old(self).wf(),
        ensures
            final(self).wf(),
            message is None ==> final(self)@ == old(self)@,
            ({
                let before = old(self)@;
                let resolved = match canonical {
                    Some(c) => c@,
                    None => path@,
                };
                let key = key_below(before.base_dir, resolved);
                let file = before.files[key];
                if !crate::util::is_supported(path@) {
                    message is None && final(self)@ == before
                } else if before.files.contains_key(key) {
                    match disk {
                        Ok(version) => if version.modified.nanoseconds()
                            <= file.last_modified.nanoseconds() {
                            reloads(message, true) && final(self)@ == before
                        } else {
                            match version.content {
                                Ok(content) => reloads(message, true) && final(self)@
                                    == crate::state::refreshed(
                                    before,
                                    key,
                                    version.modified,
                                    content,
                                ),
                                Err(_) => message is None && final(self)@ == before,
                            }
                        },
                        Err(_) => message is None && final(self)@ == before,
                    }
                } else if before.is_directory_mode && read is Ok {
                    reloads(message, true) && final(self)@ == crate::state::with_file(
                        before,
                        resolved,
                        read->Ok_0,
                    )
                } else {
                    message is None && final(self)@ == before
                }
            }),
    {
        if !is_supported_file(path.as_slice()) {
            return None;
        }
        let resolved = match canonical {
            Some(c) => c,
            None => path,
        };
        let key = self.key_of(resolved.as_slice());
        if self.tracked_files.contains_key(key.as_str()) {
            if self.refresh_file(key.as_str(), disk).is_ok() {
                return Some(ServerMessage::Reload);
            }
        } else if self.is_directory_mode && self.add_tracked_file(resolved, read).is_ok() {
            return Some(ServerMessage::Reload);
        }
        None
    }
}

/// The number of files under a prefix is positive exactly if there is one; if
/// there is none, removing them changes nothing.
proof fn lemma_some_under(files: Map<Seq<char>, TrackedView>, prefix: Seq<char>)
    requires
        files.dom().finite(),
    ensures
        files.dom().filter(|key: Seq<char>| is_under(key, prefix)).len() > 0 <==> exists|
            k: Seq<char>,
        | #[trigger]
            files.contains_key(k) && is_under(k, prefix),
        files.dom().filter(|key: Seq<char>| is_under(key, prefix)).len() == 0 ==> files_outside(
            files,
            prefix,
        ) == files,
{
    let under = |key: Seq<char>| is_under(key, prefix);
    let some = files.dom().filter(under);
    files.dom().lemma_len_filter(under);
    if some.len() > 0 {
        let k = some.choose();
        assert(some.contains(k)) by {
            if forall|x: Seq<char>| !some.contains(x) {
                assert(some =~= Set::<Seq<char>>::empty());
            }
        }
        assert(files.contains_key(k) && is_under(k, prefix));
    }
    if exists|k: Seq<char>| #[trigger] files.contains_key(k) && is_under(k, prefix) {
        let k = choose|k: Seq<char>| #[trigger] files.contains_key(k) && is_under(k, prefix);
        assert(some.contains(k));
        if some.len() == 0 {
            assert(some =~= Set::<Seq<char>>::empty());
        }
    } else {
        assert(files_outside(files, prefix) =~= files);
    }
}

/// Nothing is done about changes in the program's own directories.
pub proof fn law_own_files_are_passed_over(event: ChangeEvent, i: int)
    requires
        0 <= i < event.paths@.len(),
        crate::util::in_mdlive(event.paths@[i].path@),
    ensures
        event_steps(event) == Seq::<StepView>::empty(),
{
    assert(touches_own_dir(event.paths@));
}

proof fn lemma_dropped_paths(kind: ChangeKind, paths: Seq<EventPath>, n: nat, step: StepView)
    requires
        paths_steps(kind, paths, n).contains(step),
    ensures
        step matches StepView::DirRemoved { path, .. } ==> !crate::util::is_supported(path),
    decreases n,
{
    if n > 0 && n <= paths.len() {
        let before = paths_steps(kind, paths, (n - 1) as nat);
        let all = paths_steps(kind, paths, n);
        let i = all.index_of(step);
        if i < before.len() {
            assert(before[i] == step);
            assert(before.contains(step));
            lemma_dropped_paths(kind, paths, (n - 1) as nat, step);
        } else {
            assert(path_steps(kind, paths[n - 1])[i - before.len()] == step);
        }
    }
}

/// A supported file that vanishes is never dropped at once: an editor may be
/// about to put it back.
pub proof fn law_vanished_file_is_not_dropped_at_once(event: ChangeEvent, step: StepView)
    requires
        event_steps(event).contains(step),
    ensures
        step matches StepView::DirRemoved { path, .. } ==> !crate::util::is_supported(path),
{
    match event.kind {
        ChangeKind::Rename(mode) => {
            let steps = rename_steps(mode, event.paths@);
            let i = steps.index_of(step);
            assert(steps[i] == step);
        },
        _ => {
            lemma_dropped_paths(event.kind, event.paths@, event.paths@.len(), step);
        },
    }
}

/// The files of a directory that appears are tracked beside those that were
/// tracked before, none of which is touched.
pub proof fn law_dir_add_keeps_what_is_tracked(
    base_dir: Seq<u8>,
    before: Map<Seq<char>, TrackedView>,
    files: Seq<FoundFile>,
    n: nat,
    key: Seq<char>,
)
    requires
        n <= files.len(),
    ensures
        before.contains_key(key) ==> added_from(base_dir, before, files, n).contains_key(key)
            && added_from(base_dir, before, files, n)[key] == before[key],
        added_from(base_dir, before, files, n).contains_key(key) <==> before.contains_key(key) || (
        exists|i: int|
            0 <= i < n && (#[trigger] files[i]).read is Ok && key_below(
                base_dir,
                files[i].resolved(),
            ) == key),
    decreases n,
{
    if n > 0 {
        law_dir_add_keeps_what_is_tracked(base_dir, before, files, (n - 1) as nat, key);
        if files[n - 1].read is Ok && key_below(base_dir, files[n - 1].resolved()) == key {
            assert(added_from(base_dir, before, files, n).contains_key(key));
        }
    }
}

/// A directory that is announced twice is tracked as if it had been announced
/// once.
pub proof fn law_dir_add_is_idempotent(
    base_dir: Seq<u8>,
    before: Map<Seq<char>, TrackedView>,
    files: Seq<FoundFile>,
    n: nat,
)
    requires
        n <= files.len(),
    ensures
        added_from(base_dir, added_from(base_dir, before, files, files.len()), files, n)
            == added_from(base_dir, before, files, files.len()),
    decreases n,
{
    let once = added_from(base_dir, before, files, files.len());
    if n > 0 {
        law_dir_add_is_idempotent(base_dir, before, files, (n - 1) as nat);
        let key = key_below(base_dir, files[n - 1].resolved());
        law_dir_add_keeps_what_is_tracked(base_dir, before, files, files.len(), key);
        if files[n - 1].read is Ok {
            assert(once.contains_key(key));
        }
    }
}

/// Whether none of the paths of an event has a component `.mdlive`.
pub open spec fn keeps_out_of_own_dirs(paths: Seq<EventPath>) -> bool {
    forall|i: int|
        0 <= i < paths.len() ==> !crate::path::components(
            (#[trigger] paths[i]).path@,
        ).contains(vstd::utf8::encode_utf8(".mdlive"@))
}

proof fn lemma_steps_of_one(kind: ChangeKind, paths: Seq<EventPath>, n: nat, step: StepView)
    requires
        n <= paths.len(),
    ensures
        paths_steps(kind, paths, n).contains(step) <==> exists|i: int|
            0 <= i < n && path_steps(kind, #[trigger] paths[i]).contains(step),
    decreases n,
{
    if n > 0 {
        let m = (n - 1) as nat;
        let before = paths_steps(kind, paths, m);
        let last = path_steps(kind, paths[n - 1]);
        let all = paths_steps(kind, paths, n);
        lemma_steps_of_one(kind, paths, m, step);
        if all.contains(step) {
            let k = all.index_of(step);
            if k < before.len() {
                assert(before[k] == step);
                assert(before.contains(step));
            } else {
                assert(last[k - before.len()] == step);
                assert(last.contains(step));
            }
        }
        if before.contains(step) {
            assert(all[before.index_of(step)] == step);
        }
        if last.contains(step) {
            assert(all[before.len() + last.index_of(step)] == step);
        }
    }
}

/// Whatever file of a supported kind appears or is written to is looked at again,
/// whichever of the kinds it is, and nothing else is.
pub proof fn law_changed_files_are_looked_at(event: ChangeEvent, path: Seq<u8>)
    requires
        keeps_out_of_own_dirs(event.paths@),
        !(event.kind is Rename),
    ensures
        event_steps(event).contains(StepView::FileChanged(path)) <==> (event.kind is Create
            || event.kind is ModifyData) && crate::util::is_supported(path) && exists|i: int|
            0 <= i < event.paths@.len() && (#[trigger] event.paths@[i]).path@ == path,
{
    let step = StepView::FileChanged(path);
    let paths = event.paths@;
    lemma_steps_of_one(event.kind, paths, paths.len(), step);
    assert forall|i: int| 0 <= i < paths.len() implies (path_steps(
        event.kind,
        #[trigger] paths[i],
    ).contains(step) <==> (event.kind is Create || event.kind is ModifyData)
        && crate::util::is_supported(path) && paths[i].path@ == path) by {
        let steps = path_steps(event.kind, paths[i]);
        if steps.contains(step) {
            assert(steps[steps.index_of(step)] == step);
        }
        if (event.kind is Create || event.kind is ModifyData) && crate::util::is_supported(path)
            && paths[i].path@ == path {
            assert(steps[0] == step);
        }
    }
    assert(!touches_own_dir(paths));
}

/// Whatever file of a supported kind vanishes is looked for again a little later,
/// and nothing else is.
pub proof fn law_vanished_files_are_looked_for_later(event: ChangeEvent, path: Seq<u8>)
    requires
        keeps_out_of_own_dirs(event.paths@),
        !(event.kind is Rename),
    ensures
        event_steps(event).contains(StepView::RemoveLater(path)) <==> event.kind is Remove
            && crate::util::is_supported(path) && exists|i: int|
            0 <= i < event.paths@.len() && (#[trigger] event.paths@[i]).path@ == path,
{
    let step = StepView::RemoveLater(path);
    let paths = event.paths@;
    lemma_steps_of_one(event.kind, paths, paths.len(), step);
    assert forall|i: int| 0 <= i < paths.len() implies (path_steps(
        event.kind,
        #[trigger] paths[i],
    ).contains(step) <==> event.kind is Remove && crate::util::is_supported(path)
        && paths[i].path@ == path) by {
        let steps = path_steps(event.kind, paths[i]);
        if steps.contains(step) {
            assert(steps[steps.index_of(step)] == step);
        }
        if event.kind is Remove && crate::util::is_supported(path) && paths[i].path@ == path {
            assert(steps[0] == step);
        }
    }
    assert(!touches_own_dir(paths));
}

/// Whatever directory appears is added, unless its name is that of a supported
/// file, and nothing else is.
pub proof fn law_new_directories_are_added(event: ChangeEvent, path: Seq<u8>)
    requires
        keeps_out_of_own_dirs(event.paths@),
        !(event.kind is Rename),
    ensures
        event_steps(event).contains(StepView::DirAdded(path)) <==> event.kind is Create
            && !crate::util::is_supported(path) && exists|i: int|
            0 <= i < event.paths@.len() && (#[trigger] event.paths@[i]).path@ == path
                && event.paths@[i].is_dir && !(event.paths@[i].is_file && is_image_path(path)),
{
    let step = StepView::DirAdded(path);
    let paths = event.paths@;
    lemma_steps_of_one(event.kind, paths, paths.len(), step);
    assert forall|i: int| 0 <= i < paths.len() implies (path_steps(
        event.kind,
        #[trigger] paths[i],
    ).contains(step) <==> event.kind is Create && !crate::util::is_supported(path)
        && paths[i].path@ == path && paths[i].is_dir && !(paths[i].is_file && is_image_path(
        path,
    ))) by {
        let steps = path_steps(event.kind, paths[i]);
        if steps.contains(step) {
            assert(steps[steps.index_of(step)] == step);
        }
        if event.kind is Create && !crate::util::is_supported(path) && paths[i].path@ == path
            && paths[i].is_dir && !(paths[i].is_file && is_image_path(path)) {
            assert(steps[0] == step);
        }
    }
    assert(!touches_own_dir(paths));
}

/// Whatever vanishes that is no supported file may have been a directory, and is
/// removed as one, with what is known of it; nothing else is.
pub proof fn law_vanished_directories_are_removed(event: ChangeEvent, path: Seq<u8>, folder: bool)
    requires
        keeps_out_of_own_dirs(event.paths@),
        !(event.kind is Rename),
    ensures
        event_steps(event).contains(StepView::DirRemoved { path, folder }) <==> event.kind == (
        ChangeKind::Remove { folder }) && !crate::util::is_supported(path) && exists|i: int|
            0 <= i < event.paths@.len() && (#[trigger] event.paths@[i]).path@ == path
                && !event.paths@[i].exists && !(event.paths@[i].is_file && is_image_path(path)),
{
    let step = StepView::DirRemoved { path, folder };
    let paths = event.paths@;
    lemma_steps_of_one(event.kind, paths, paths.len(), step);
    assert forall|i: int| 0 <= i < paths.len() implies (path_steps(
        event.kind,
        #[trigger] paths[i],
    ).contains(step) <==> event.kind == (ChangeKind::Remove { folder })
        && !crate::util::is_supported(path) && paths[i].path@ == path && !paths[i].exists && !(
    paths[i].is_file && is_image_path(path))) by {
        let steps = path_steps(event.kind, paths[i]);
        if steps.contains(step) {
            assert(steps[steps.index_of(step)] == step);
        }
        if event.kind == (ChangeKind::Remove { folder }) && !crate::util::is_supported(path)
            && paths[i].path@ == path && !paths[i].exists && !(paths[i].is_file && is_image_path(
            path,
        )) {
            assert(steps[0] == step);
        }
    }
    assert(!touches_own_dir(paths));
}

/// Whatever image appears, changes in any way or vanishes is reported as a change
/// of an image, and nothing else is.
pub proof fn law_changed_images_are_reported(event: ChangeEvent)
    requires
        keeps_out_of_own_dirs(event.paths@),
        !(event.kind is Rename),
    ensures
        event_steps(event).contains(StepView::ImageChanged) <==> (event.kind is Create
            || event.kind is ModifyData || event.kind is ModifyOther || event.kind is Remove)
            && exists|i: int|
            0 <= i < event.paths@.len() && (#[trigger] event.paths@[i]).is_file && is_image_path(
                event.paths@[i].path@,
            ) && !crate::util::is_supported(event.paths@[i].path@),
{
    let step = StepView::ImageChanged;
    let paths = event.paths@;
    let told = event.kind is Create || event.kind is ModifyData || event.kind is ModifyOther
        || event.kind is Remove;
    lemma_steps_of_one(event.kind, paths, paths.len(), step);
    assert forall|i: int| 0 <= i < paths.len() implies (path_steps(
        event.kind,
        #[trigger] paths[i],
    ).contains(step) <==> told && paths[i].is_file && is_image_path(paths[i].path@)
        && !crate::util::is_supported(paths[i].path@)) by {
        let steps = path_steps(event.kind, paths[i]);
        if steps.contains(step) {
            assert(steps[steps.index_of(step)] == step);
        }
        if told && paths[i].is_file && is_image_path(paths[i].path@) && !crate::util::is_supported(
            paths[i].path@,
        ) {
            assert(steps[0] == step);
        }
    }
    assert(!touches_own_dir(paths));
}

proof fn lemma_steps_agree(kind: ChangeKind, a: Seq<EventPath>, b: Seq<EventPath>, n: nat)
    requires
        n <= a.len(),
        n <= b.len(),
        forall|i: int| 0 <= i < n ==> a[i] == b[i],
    ensures
        paths_steps(kind, a, n) == paths_steps(kind, b, n),
    decreases n,
{
    if n > 0 {
        lemma_steps_agree(kind, a, b, (n - 1) as nat);
    }
}

proof fn lemma_steps_concat(kind: ChangeKind, a: Seq<EventPath>, b: Seq<EventPath>, n: nat)
    requires
        n <= b.len(),
    ensures
        paths_steps(kind, a + b, a.len() + n) == paths_steps(kind, a, a.len()) + paths_steps(
            kind,
            b,
            n,
        ),
    decreases n,
{
    let x = paths_steps(kind, a, a.len());
    if n == 0 {
        lemma_steps_agree(kind, a, a + b, a.len());
        assert(x + Seq::<StepView>::empty() =~= x);
    } else {
        lemma_steps_concat(kind, a, b, (n - 1) as nat);
        assert((a + b)[a.len() + n - 1] == b[n - 1]);
        let y = paths_steps(kind, b, (n - 1) as nat);
        let z = path_steps(kind, b[n - 1]);
        assert((x + y) + z =~= x + (y + z));
    }
}

/// The paths of an event that is not a rename are seen to in their order, each on
/// its own and with one step at most.
pub proof fn law_paths_are_seen_to_in_order(all: ChangeEvent, first: ChangeEvent, rest: ChangeEvent)
    requires
        all.kind == first.kind,
        all.kind == rest.kind,
        !(all.kind is Rename),
        all.paths@ == first.paths@ + rest.paths@,
        keeps_out_of_own_dirs(all.paths@),
    ensures
        event_steps(all) == event_steps(first) + event_steps(rest),
        event_steps(all).len() <= all.paths@.len(),
{
    let a = first.paths@;
    let b = rest.paths@;
    assert forall|i: int| 0 <= i < a.len() implies !crate::util::in_mdlive(
        (#[trigger] a[i]).path@,
    ) by {
        assert(all.paths@[i] == a[i]);
    }
    assert forall|i: int| 0 <= i < b.len() implies !crate::util::in_mdlive(
        (#[trigger] b[i]).path@,
    ) by {
        assert(all.paths@[a.len() + i] == b[i]);
    }
    lemma_steps_concat(all.kind, a, b, b.len());
    lemma_few_steps(all.kind, all.paths@, all.paths@.len());
}

proof fn lemma_few_steps(kind: ChangeKind, paths: Seq<EventPath>, n: nat)
    requires
        n <= paths.len(),
    ensures
        paths_steps(kind, paths, n).len() <= n,
    decreases n,
{
    if n > 0 {
        lemma_few_steps(kind, paths, (n - 1) as nat);
    }
}

/// A rename with both names moves a directory from the one to the other, and makes
/// a file be looked at under its new name.
pub proof fn law_rename_with_both_names(event: ChangeEvent)
    requires
        keeps_out_of_own_dirs(event.paths@),
        event.kind == ChangeKind::Rename(RenameKind::Both),
    ensures
        event.paths@.len() == 2 && event.paths@[1].is_dir ==> event_steps(event) == seq![
            StepView::DirMoved(event.paths@[0].path@, event.paths@[1].path@),
        ],
        event.paths@.len() == 2 && !event.paths@[1].is_dir ==> event_steps(event) == seq![
            StepView::FileChanged(event.paths@[1].path@),
        ],
        event.paths@.len() != 2 ==> event_steps(event).len() == 0,
{
    assert(!touches_own_dir(event.paths@));
}

/// A rename with one name: what went away is looked for later; what arrived is added
/// if it is a directory and else looked at, and so is what may have done either, if
/// it is there.
pub proof fn law_rename_with_one_name(event: ChangeEvent, mode: RenameKind)
    requires
        keeps_out_of_own_dirs(event.paths@),
        event.kind == ChangeKind::Rename(mode),
        event.paths@.len() > 0,
    ensures
        ({
            let p = event.paths@[0];
            &&& mode is From ==> event_steps(event) == seq![StepView::RemoveLater(p.path@)]
            &&& mode is To && p.is_dir ==> event_steps(event) == seq![StepView::DirAdded(p.path@)]
            &&& mode is To && !p.is_dir ==> event_steps(event) == seq![
                StepView::FileChanged(p.path@),
            ]
            &&& mode is Any && p.is_dir ==> event_steps(event) == seq![StepView::DirAdded(p.path@)]
            &&& mode is Any && !p.is_dir && p.exists ==> event_steps(event) == seq![
                StepView::FileChanged(p.path@),
            ]
            &&& mode is Any && !p.is_dir && !p.exists ==> event_steps(event).len() == 0
            &&& mode is Other ==> event_steps(event).len() == 0
        }),
{
    assert(!touches_own_dir(event.paths@));
}

/// Nothing is done about an event one of whose paths has a component `.mdlive`, nor
/// about one that tells of no path.
pub proof fn law_events_without_paths_to_see_to(event: ChangeEvent, i: int)
    ensures
        0 <= i < event.paths@.len() && crate::path::components(event.paths@[i].path@).contains(
            vstd::utf8::encode_utf8(".mdlive"@),
        ) ==> event_steps(event).len() == 0,
        event.paths@.len() == 0 ==> event_steps(event).len() == 0,
{
    if 0 <= i < event.paths@.len() && crate::util::in_mdlive(event.paths@[i].path@) {
        assert(touches_own_dir(event.paths@));
    }
}

/// A path that is text names an image exactly if its extension is that of one; any
/// other path counts like one without an extension.
pub proof fn law_image_paths_are_those_of_images(text: Seq<char>, path: Seq<u8>)
    ensures
        !vstd::utf8::valid_utf8(path) ==> (is_image_path(path) <==> crate::util::is_image(
            Seq::<u8>::empty(),
        )),
        is_image_path(vstd::utf8::encode_utf8(text)) <==> crate::util::is_image(
            vstd::utf8::encode_utf8(text),
        ),
{
    crate::text::law_bytes_of_a_text_are_read_back(text);
    reveal_strlit("");
    assert(""@ =~= Seq::<char>::empty());
    assert(vstd::utf8::encode_utf8(""@) =~= Seq::<u8>::empty());
}

/// A file in a directory that appears is tracked under its path below the base
/// directory, as it was read; of two with the same key the first counts.
pub proof fn law_dir_add_tracks_the_files_as_read(
    base_dir: Seq<u8>,
    before: Map<Seq<char>, TrackedView>,
    files: Seq<FoundFile>,
    n: nat,
    i: int,
)
    requires
        0 <= i < n <= files.len(),
        files[i].read is Ok,
        !before.contains_key(key_below(base_dir, files[i].resolved())),
        forall|j: int|
            0 <= j < i && (#[trigger] files[j]).read is Ok ==> key_below(
                base_dir,
                files[j].resolved(),
            ) != key_below(base_dir, files[i].resolved()),
    ensures
        ({
            let key = key_below(base_dir, files[i].resolved());
            let after = added_from(base_dir, before, files, n);
            let file = files[i].read->Ok_0;
            &&& after.contains_key(key)
            &&& after[key].path == files[i].resolved()
            &&& after[key].last_modified == file.modified
            &&& after[key].html == crate::state::content_html(files[i].resolved(), file.content)
            &&& file.created matches Some(created) ==> after[key].created == created
            &&& file.created is None ==> after[key].created == file.modified
        }),
    decreases n,
{
    let key = key_below(base_dir, files[i].resolved());
    if i == n - 1 {
        law_dir_add_keeps_what_is_tracked(base_dir, before, files, (n - 1) as nat, key);
    } else {
        law_dir_add_tracks_the_files_as_read(base_dir, before, files, (n - 1) as nat, i);
    }
}

/// The pages are told to reload exactly if they are told anything.
pub proof fn law_the_pages_are_told_to_reload(message: ServerMessage, told: bool)
    ensures
        reloads(Some(message), told) <==> told && message == ServerMessage::Reload,
        reloads(None, told) <==> !told,
{
}

/// A canonical form counts in place of the path that it was found for.
pub proof fn law_canonical_form_counts(path: Seq<u8>, canonical: &[u8])
    ensures
        resolved(path, Some(canonical)) == canonical@,
        resolved(path, None) == path,
{
}

/// What is said of a step is what it holds.
pub proof fn law_steps_say_what_they_hold(from: Vec<u8>, to: Vec<u8>, folder: bool)
    ensures
        Step::DirMoved(from, to)@ == StepView::DirMoved(from@, to@),
        Step::DirAdded(to)@ == StepView::DirAdded(to@),
        (Step::DirRemoved { path: from, folder })@ == (StepView::DirRemoved {
            path: from@,
            folder,
        }),
        Step::FileChanged(to)@ == StepView::FileChanged(to@),
        Step::RemoveLater(from)@ == StepView::RemoveLater(from@),
        Step::ImageChanged@ == StepView::ImageChanged,
{
}

} // verus!
