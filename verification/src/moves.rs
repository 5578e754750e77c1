//! Moving and removing whole directories of tracked files.

use vstd::prelude::*;

use crate::path::{path_join, same_bytes};
use crate::state::{MarkdownState, TrackedFile};
#[allow(unused_imports)]
use crate::state::{StateView, TrackedView};
#[allow(unused_imports)]
use crate::order::views;
use crate::table::Table;
use crate::text::{chars_of, joined, text_after};

verus! {

/// Whether a key is the given one, or lies in the directory of that name.
pub open spec fn is_under(key: Seq<char>, prefix: Seq<char>) -> bool {
    key == prefix || prefix.push('/').is_prefix_of(key)
}

/// The key at the same place below `to` as `key` has below `from`.
pub open spec fn rebased(key: Seq<char>, from: Seq<char>, to: Seq<char>) -> Seq<char> {
    to + key.skip(from.len() as int)
}

/// Moving a key and moving it back gives the key again, and what is moved lies
/// under the new prefix.
pub proof fn lemma_rebased(key: Seq<char>, from: Seq<char>, to: Seq<char>)
    requires
        is_under(key, from),
    ensures
        is_under(rebased(key, from, to), to),
        rebased(rebased(key, from, to), to, from) == key,
{
    let rest = key.skip(from.len() as int);
    assert(from.is_prefix_of(key)) by {
        assert(from =~= key.subrange(0, from.len() as int));
    }
    assert(key =~= from + rest);
    assert(rebased(key, from, to).skip(to.len() as int) =~= rest);
    if key == from {
        assert(to + rest =~= to);
    } else {
        assert(rest[0] == '/') by {
            assert(key.subrange(0, from.len() as int + 1)[from.len() as int] == '/');
        }
        assert(to.push('/') =~= (to + rest).subrange(0, to.len() as int + 1));
    }
}

/// Whether a key is tracked once the tracked files under `from` have moved
/// under `to`, as the new key of one of them.
pub open spec fn is_new_key(
    files: Map<Seq<char>, TrackedView>,
    from: Seq<char>,
    to: Seq<char>,
    key: Seq<char>,
) -> bool {
    is_under(key, to) && files.contains_key(rebased(key, to, from))
}

/// The canonical path that was found for a path, or the path itself.
pub open spec fn canonical_of(found: Seq<(Vec<u8>, Vec<u8>)>, path: Seq<u8>) -> Seq<u8>
    decreases found.len(),
{
    if found.len() == 0 {
        path
    } else if found[0].0@ == path {
        found[0].1@
    } else {
        canonical_of(found.skip(1), path)
    }
}

/// The path of a tracked file after a move, before it is made canonical.
pub open spec fn moved_path(base_dir: Seq<u8>, key: Seq<char>) -> Seq<u8> {
    crate::path::join(base_dir, vstd::utf8::encode_utf8(key))
}

/// What is tracked once the tracked files under `from` have moved under `to`.
/// Every file under `from` is tracked under its new key, with its new path;
/// a file that was tracked there before is replaced. All other files stay.
pub open spec fn moved_files(
    files: Map<Seq<char>, TrackedView>,
    from: Seq<char>,
    to: Seq<char>,
    base_dir: Seq<u8>,
    canonical: Seq<(Vec<u8>, Vec<u8>)>,
) -> Map<Seq<char>, TrackedView> {
    Map::new(
        |key: Seq<char>|
            is_new_key(files, from, to, key) || files.contains_key(key) && !is_under(key, from),
        |key: Seq<char>|
            if is_new_key(files, from, to, key) {
                TrackedView {
                    path: canonical_of(canonical, moved_path(base_dir, key)),
                    ..files[rebased(key, to, from)]
                }
            } else {
                files[key]
            },
    )
}

/// What is tracked once the tracked files under a prefix are not any more.
pub open spec fn files_outside(files: Map<Seq<char>, TrackedView>, prefix: Seq<char>) -> Map<
    Seq<char>,
    TrackedView,
> {
    Map::new(
        |key: Seq<char>| files.contains_key(key) && !is_under(key, prefix),
        |key: Seq<char>| files[key],
    )
}

/// The part of a key behind a prefix that it lies under.
fn part_under(key: &str, prefix: &str) -> (rest: Option<String>)
    ensures
        rest is Some <==> is_under(key@, prefix@),
        rest matches Some(r) ==> r@ == key@.skip(prefix@.len() as int),
{
    assert(prefix@.push('/').is_prefix_of(key@) ==> prefix@.is_prefix_of(key@)) by {
        if prefix@.push('/').is_prefix_of(key@) {
            assert(prefix@ =~= key@.subrange(0, prefix@.len() as int)) by {
                assert(forall|i: int|
                    0 <= i < prefix@.len() ==> prefix@.push('/')[i] == #[trigger] prefix@[i]);
            }
        }
    }
    assert(key@ == prefix@ ==> prefix@.is_prefix_of(key@)) by {
        assert(key@.subrange(0, key@.len() as int) =~= key@);
    }
    match text_after(key, prefix) {
        Some(rest) => {
            let chars = chars_of(rest.as_str());
            assert(key@ =~= prefix@ + rest@);
            if chars.len() == 0 {
                assert(key@ =~= prefix@);
                Some(rest)
            } else if chars[0] == '/' {
                assert(prefix@.push('/') =~= key@.subrange(0, prefix@.len() as int + 1));
                Some(rest)
            } else {
                assert(key@.subrange(0, prefix@.len() as int + 1)[prefix@.len() as int] != '/');
                None
            }
        },
        None => None,
    }
}

/// The canonical path that was found for a path, or the path itself.
fn find_canonical(found: &Vec<(Vec<u8>, Vec<u8>)>, path: Vec<u8>) -> (out: Vec<u8>)
    ensures
        out@ == canonical_of(found@, path@),
{
    assert(found@.skip(0) =~= found@);
    for i in 0..found.len()
        invariant
            canonical_of(found@, path@) == canonical_of(found@.skip(i as int), path@),
    {
        assert(found@.skip(i as int)[0] == found@[i as int]);
        assert(found@.skip(i as int).skip(1) =~= found@.skip(i + 1));
        if same_bytes(found[i].0.as_slice(), path.as_slice()) {
            return vstd::slice::slice_to_vec(found[i].1.as_slice());
        }
    }
    path
}

impl MarkdownState {
    /// The paths that the tracked files under `from` have once they are moved
    /// under `to`, before these are made canonical.
    pub fn moved_paths(&self, from: &str, to: &str) -> (paths: Vec<Vec<u8>>)
        requires
            self.wf(),
        ensures
            forall|p: Seq<u8>|
                views(paths@).contains(p) <==> exists|key: Seq<char>|
                    self@.files.contains_key(key) && is_under(key, from@) && p == moved_path(
                        self@.base_dir,
                        #[trigger] rebased(key, from@, to@),
                    ),
    {
        let mut paths: Vec<Vec<u8>> = Vec::new();
        let n = self.tracked_files.len();
        let ghost keys = self.tracked_files.keys();
        for i in 0..n
            invariant
                self.wf(),
                n == keys.len(),
                keys == self.tracked_files.keys(),
                forall|p: Seq<u8>|
                    views(paths@).contains(p) <==> exists|j: int|
                        0 <= j < i && is_under(#[trigger] keys[j], from@) && p == moved_path(
                            self@.base_dir,
                            rebased(keys[j], from@, to@),
                        ),
        {
            let ghost held = views(paths@);
            let key = self.tracked_files.key_at(i);
            match part_under(key.as_str(), from) {
                Some(rest) => {
                    let new_key = joined(to, rest.as_str());
                    let path = path_join(self.base_dir.as_slice(), new_key.as_str().as_bytes());
                    let ghost p = path@;
                    paths.push(path);
                    assert(views(paths@) =~= held.push(p));
                    assert forall|q: Seq<u8>|
                        views(paths@).contains(q) <==> exists|j: int|
                            0 <= j < i + 1 && is_under(#[trigger] keys[j], from@) && q
                                == moved_path(self@.base_dir, rebased(keys[j], from@, to@)) by {
                        if q == p {
                            assert(views(paths@)[held.len() as int] == q);
                            assert(is_under(keys[i as int], from@));
                        } else if views(paths@).contains(q) {
                            assert(held.contains(q));
                        } else if held.contains(q) {
                            let k = held.index_of(q);
                            assert(views(paths@)[k] == q);
                        }
                    }
                },
                None => {},
            }
        }
        proof {
            self.tracked_files.lemma_keys();
            assert forall|p: Seq<u8>|
                views(paths@).contains(p) <==> exists|key: Seq<char>|
                    self@.files.contains_key(key) && is_under(key, from@) && p == moved_path(
                        self@.base_dir,
                        #[trigger] rebased(key, from@, to@),
                    ) by {
                if views(paths@).contains(p) {
                    let j = choose|j: int|
                        0 <= j < n && is_under(#[trigger] keys[j], from@) && p == moved_path(
                            self@.base_dir,
                            rebased(keys[j], from@, to@),
                        );
                    assert(keys.to_set().contains(keys[j]));
                    assert(self@.files.contains_key(keys[j]));
                }
                if exists|key: Seq<char>|
                    self@.files.contains_key(key) && is_under(key, from@) && p == moved_path(
                        self@.base_dir,
                        #[trigger] rebased(key, from@, to@),
                    ) {
                    let key = choose|key: Seq<char>|
                        self@.files.contains_key(key) && is_under(key, from@) && p == moved_path(
                            self@.base_dir,
                            #[trigger] rebased(key, from@, to@),
                        );
                    assert(keys.to_set().contains(key));
                    let j = keys.index_of(key);
                    assert(keys[j] == key);
                }
            }
        }
        paths
    }

    /// Moves every tracked file that is `from` or lies under it to the same
    /// place under `to`, so that all of them stay tracked. `canonical` holds
    /// the canonical paths of their new paths, as far as they could be had.
    pub fn move_tracked_prefix(
        &mut self,
        from: &str,
        to: &str,
        canonical: &Vec<(Vec<u8>, Vec<u8>)>,
    )
        requires
            old(self).wf(),
        ensures
            final(self).wf(),
            final(self)@ == (StateView {
                files: moved_files(
                    old(self)@.files,
                    from@,
                    to@,
                    old(self)@.base_dir,
                    canonical@,
                ),
                ..old(self)@
            }),
    {
        let ghost files = self@.files;
        let ghost keys = self.tracked_files.keys();
        let ghost goal = moved_files(files, from@, to@, self@.base_dir, canonical@);
        let mut source: Table<TrackedFile> = Table::new();
        std::mem::swap(&mut source, &mut self.tracked_files);
        let mut out: Table<TrackedFile> = Table::new();
        proof {
            source.lemma_keys();
        }
        // the new keys are looked up in the table, so the entries are taken
        // from it by their places
        let n = source.len();
        let mut overwritten: Vec<bool> = Vec::new();
        for i in 0..n
            invariant
                source.wf(),
                source@ == files,
                source.keys() == keys,
                n == keys.len(),
                overwritten@.len() == i,
                forall|j: int|
                    0 <= j < i ==> #[trigger] overwritten@[j] == is_new_key(
                        files,
                        from@,
                        to@,
                        keys[j],
                    ),
        {
            let key = source.key_at(i);
            let taken = match part_under(key.as_str(), to) {
                Some(rest) => source.contains_key(joined(from, rest.as_str()).as_str()),
                None => false,
            };
            overwritten.push(taken);
        }
        let mut entries = source.into_entries();
        while entries.len() > 0
            invariant
                out.wf(),
                entries@.len() <= n,
                n == keys.len(),
                keys.no_duplicates(),
                files.dom() == keys.to_set(),
                overwritten@.len() == n,
                forall|j: int|
                    0 <= j < n ==> #[trigger] overwritten@[j] == is_new_key(
                        files,
                        from@,
                        to@,
                        keys[j],
                    ),
                forall|j: int|
                    0 <= j < entries@.len() ==> (#[trigger] entries@[j]).0@ == keys[j]
                        && entries@[j].1@ == files[keys[j]],
                goal == moved_files(files, from@, to@, self@.base_dir, canonical@),
                forall|key: Seq<char>| #[trigger]
                    out@.contains_key(key) <==> goal.contains_key(key) && keys.skip(
                        entries@.len() as int,
                    ).contains(origin(files, from@, to@, key)),
                forall|key: Seq<char>| #[trigger] out@.contains_key(key) ==> out@[key] == goal[key],
            decreases entries@.len(),
        {
            let ghost m = entries@.len() as int;
            let ghost before = out@;
            let (key, file) = entries.pop().unwrap();
            let ghost k = key@;
            proof {
                assert(keys[m - 1] == k);
                assert(keys.skip(m - 1) =~= seq![k] + keys.skip(m));
                assert(keys.to_set().contains(k));
                assert(files.contains_key(k));
            }
            match part_under(key.as_str(), from) {
                Some(rest) => {
                    let new_key = joined(to, rest.as_str());
                    let path = path_join(self.base_dir.as_slice(), new_key.as_str().as_bytes());
                    let path = find_canonical(canonical, path);
                    let moved = TrackedFile {
                        path,
                        last_modified: file.last_modified,
                        created: file.created,
                        html: file.html,
                    };
                    let ghost new = new_key@;
                    proof {
                        lemma_rebased(k, from@, to@);
                        assert(new == rebased(k, from@, to@));
                        assert(origin(files, from@, to@, new) == k);
                        assert(goal.contains_key(new));
                        assert(goal[new] == moved@);
                    }
                    out.insert(new_key, moved);
                    proof {
                        lemma_step(files, from@, to@, goal, keys, m, k, new, before, out@);
                    }
                },
                None => {
                    if !overwritten[entries.len()] {
                        proof {
                            assert(origin(files, from@, to@, k) == k);
                            assert(goal.contains_key(k));
                            assert(goal[k] == file@);
                        }
                        out.insert(key, file);
                        proof {
                            lemma_step(files, from@, to@, goal, keys, m, k, k, before, out@);
                        }
                    } else {
                        proof {
                            lemma_skip(files, from@, to@, goal, keys, m, k);
                        }
                    }
                },
            }
        }
        proof {
            assert(entries@.len() == 0);
            assert(keys.skip(0) =~= keys);
            assert forall|key: Seq<char>| out@.contains_key(key) <==> goal.contains_key(key) by {
                if goal.contains_key(key) {
                    assert(files.contains_key(origin(files, from@, to@, key)));
                    assert(keys.to_set().contains(origin(files, from@, to@, key)));
                }
            }
            assert(out@ =~= goal);
        }
        self.tracked_files = out;
    }

    /// Stops tracking every file that is `prefix` or lies under it. Gives
    /// their number.
    pub fn remove_tracked_prefix(&mut self, prefix: &str) -> (count: usize)
        requires
            old(self).wf(),
        ensures
            final(self).wf(),
            final(self)@ == (StateView {
                files: files_outside(old(self)@.files, prefix@),
                ..old(self)@
            }),
            count == old(self)@.files.dom().filter(|key: Seq<char>| is_under(key, prefix@)).len(),
    {
        let ghost files = self@.files;
        let ghost keys = self.tracked_files.keys();
        let ghost goal = files_outside(files, prefix@);
        let ghost under = |key: Seq<char>| is_under(key, prefix@);
        let mut source: Table<TrackedFile> = Table::new();
        std::mem::swap(&mut source, &mut self.tracked_files);
        proof {
            source.lemma_keys();
        }
        let mut entries = source.into_entries();
        let mut out: Table<TrackedFile> = Table::new();
        let mut count: usize = 0;
        let n = entries.len();
        let ghost mut gone: Set<Seq<char>> = Set::empty();
        while entries.len() > 0
            invariant
                out.wf(),
                n == keys.len(),
                entries@.len() <= n,
                keys.no_duplicates(),
                files.dom() == keys.to_set(),
                goal == files_outside(files, prefix@),
                forall|j: int|
                    0 <= j < entries@.len() ==> (#[trigger] entries@[j]).0@ == keys[j]
                        && entries@[j].1@ == files[keys[j]],
                forall|key: Seq<char>| #[trigger]
                    out@.contains_key(key) <==> goal.contains_key(key) && keys.skip(
                        entries@.len() as int,
                    ).contains(key),
                forall|key: Seq<char>| #[trigger] out@.contains_key(key) ==> out@[key] == goal[key],
                gone.finite(),
                count == gone.len(),
                count <= n - entries@.len(),
                forall|key: Seq<char>| #[trigger]
                    gone.contains(key) <==> is_under(key, prefix@) && keys.skip(
                        entries@.len() as int,
                    ).contains(key),
            decreases entries@.len(),
        {
            let ghost m = entries@.len() as int;
            let ghost before = out@;
            let (key, file) = entries.pop().unwrap();
            let ghost k = key@;
            proof {
                assert(keys[m - 1] == k);
                assert(keys.skip(m - 1) =~= seq![k] + keys.skip(m));
                assert(keys.to_set().contains(k));
                assert(files.contains_key(k));
                lemma_skip_contains(keys, m);
            }
            match part_under(key.as_str(), prefix) {
                Some(_) => {
                    proof {
                        assert(!keys.skip(m).contains(k));
                        assert(!gone.contains(k));
                        gone = gone.insert(k);
                    }
                    count = count + 1;
                },
                None => {
                    out.insert(key, file);
                },
            }
        }
        proof {
            assert(entries@.len() == 0);
            assert(keys.skip(0) =~= keys);
            assert forall|key: Seq<char>| out@.contains_key(key) <==> goal.contains_key(key) by {
                if goal.contains_key(key) {
                    assert(keys.to_set().contains(key));
                }
            }
            assert(out@ =~= goal);
            assert forall|key: Seq<char>| gone.contains(key) <==> files.dom().filter(under).contains(
                key,
            ) by {
                assert(keys.to_set().contains(key) <==> keys.contains(key));
            }
            assert(gone =~= files.dom().filter(under));
        }
        self.tracked_files = out;
        count
    }
}

/// The key that a file had before a move.
spec fn origin(
    files: Map<Seq<char>, TrackedView>,
    from: Seq<char>,
    to: Seq<char>,
    key: Seq<char>,
) -> Seq<char> {
    if is_new_key(files, from, to, key) {
        rebased(key, to, from)
    } else {
        key
    }
}

proof fn lemma_skip_contains(keys: Seq<Seq<char>>, m: int)
    requires
        keys.no_duplicates(),
        0 < m <= keys.len(),
    ensures
        !keys.skip(m).contains(keys[m - 1]),
        forall|x: Seq<char>| #[trigger]
            keys.skip(m - 1).contains(x) <==> x == keys[m - 1] || keys.skip(m).contains(x),
{
    assert forall|x: Seq<char>| #[trigger]
        keys.skip(m - 1).contains(x) <==> x == keys[m - 1] || keys.skip(m).contains(x) by {
        if keys.skip(m - 1).contains(x) {
            let i = keys.skip(m - 1).index_of(x);
            if i > 0 {
                assert(keys.skip(m)[i - 1] == x);
            }
        }
        if x == keys[m - 1] {
            assert(keys.skip(m - 1)[0] == x);
        }
        if keys.skip(m).contains(x) {
            let i = keys.skip(m).index_of(x);
            assert(keys.skip(m - 1)[i + 1] == x);
        }
    }
    if keys.skip(m).contains(keys[m - 1]) {
        let i = keys.skip(m).index_of(keys[m - 1]);
        assert(keys[m + i] == keys[m - 1]);
    }
}

/// One entry more is in its new place.
proof fn lemma_step(
    files: Map<Seq<char>, TrackedView>,
    from: Seq<char>,
    to: Seq<char>,
    goal: Map<Seq<char>, TrackedView>,
    keys: Seq<Seq<char>>,
    m: int,
    k: Seq<char>,
    new: Seq<char>,
    before: Map<Seq<char>, TrackedView>,
    after: Map<Seq<char>, TrackedView>,
)
    requires
        keys.no_duplicates(),
        0 < m <= keys.len(),
        keys[m - 1] == k,
        goal.contains_key(new),
        origin(files, from, to, new) == k,
        after == before.insert(new, goal[new]),
        forall|key: Seq<char>| goal.contains_key(key) ==> (is_new_key(files, from, to, key) || files.contains_key(key) && !is_under(key, from)),
        forall|key: Seq<char>| #[trigger]
            before.contains_key(key) <==> goal.contains_key(key) && keys.skip(m).contains(
                origin(files, from, to, key),
            ),
        forall|key: Seq<char>| #[trigger] before.contains_key(key) ==> before[key] == goal[key],
    ensures
        forall|key: Seq<char>| #[trigger]
            after.contains_key(key) <==> goal.contains_key(key) && keys.skip(m - 1).contains(
                origin(files, from, to, key),
            ),
        forall|key: Seq<char>| #[trigger] after.contains_key(key) ==> after[key] == goal[key],
{
    lemma_skip_contains(keys, m);
    assert forall|key: Seq<char>| goal.contains_key(key) && origin(files, from, to, key)
        == k implies key == new by {
        if is_new_key(files, from, to, key) {
            lemma_rebased(key, to, from);
            if is_new_key(files, from, to, new) {
                lemma_rebased(new, to, from);
            }
        } else if is_new_key(files, from, to, new) {
            lemma_rebased(new, to, from);
        }
    }
}

/// An entry whose place is taken by a moved one is left out.
proof fn lemma_skip(
    files: Map<Seq<char>, TrackedView>,
    from: Seq<char>,
    to: Seq<char>,
    goal: Map<Seq<char>, TrackedView>,
    keys: Seq<Seq<char>>,
    m: int,
    k: Seq<char>,
)
    requires
        keys.no_duplicates(),
        0 < m <= keys.len(),
        keys[m - 1] == k,
        is_new_key(files, from, to, k),
        !is_under(k, from),
    ensures
        forall|key: Seq<char>| #[trigger]
            goal.contains_key(key) ==> (keys.skip(m - 1).contains(origin(files, from, to, key))
                <==> keys.skip(m).contains(origin(files, from, to, key))),
{
    lemma_skip_contains(keys, m);
    assert forall|key: Seq<char>| origin(files, from, to, key) != k by {
        if is_new_key(files, from, to, key) {
            lemma_rebased(key, to, from);
        }
    }
}

/// Neither of two prefixes lies under the other.
pub open spec fn apart(a: Seq<char>, b: Seq<char>) -> bool {
    !is_under(a, b) && !is_under(b, a)
}

proof fn lemma_shorter_prefix(key: Seq<char>, a: Seq<char>, b: Seq<char>)
    requires
        is_under(key, a),
        is_under(key, b),
        a.len() <= b.len(),
    ensures
        is_under(b, a),
{
    lemma_rebased(key, a, a);
    lemma_rebased(key, b, b);
    assert(forall|i: int| 0 <= i < a.len() ==> key[i] == a[i]) by {
        assert forall|i: int| 0 <= i < a.len() implies key[i] == a[i] by {
            if key != a {
                assert(a.push('/')[i] == key.subrange(0, a.len() as int + 1)[i]);
            }
        }
    }
    assert(forall|i: int| 0 <= i < b.len() ==> key[i] == b[i]) by {
        assert forall|i: int| 0 <= i < b.len() implies key[i] == b[i] by {
            if key != b {
                assert(b.push('/')[i] == key.subrange(0, b.len() as int + 1)[i]);
            }
        }
    }
    if a.len() == b.len() {
        assert(a =~= b);
    } else {
        assert(key != a);
        assert(key[a.len() as int] == '/') by {
            assert(a.push('/')[a.len() as int] == key.subrange(0, a.len() as int + 1)[a.len() as int]);
        }
        assert(a.push('/') =~= b.subrange(0, a.len() as int + 1));
    }
}

/// No key lies under two prefixes that are apart.
proof fn lemma_apart(key: Seq<char>, a: Seq<char>, b: Seq<char>)
    requires
        apart(a, b),
    ensures
        !(is_under(key, a) && is_under(key, b)),
{
    if is_under(key, a) && is_under(key, b) {
        if a.len() <= b.len() {
            lemma_shorter_prefix(key, a, b);
        } else {
            lemma_shorter_prefix(key, b, a);
        }
    }
}

/// Every file in a directory that moves stays tracked, with the same content
/// and times.
pub proof fn law_move_keeps_every_file(
    files: Map<Seq<char>, TrackedView>,
    from: Seq<char>,
    to: Seq<char>,
    base_dir: Seq<u8>,
    canonical: Seq<(Vec<u8>, Vec<u8>)>,
    key: Seq<char>,
)
    requires
        files.contains_key(key),
        is_under(key, from),
    ensures
        ({
            let new_key = rebased(key, from, to);
            let after = moved_files(files, from, to, base_dir, canonical);
            &&& after.contains_key(new_key)
            &&& after[new_key] == TrackedView {
                path: canonical_of(canonical, moved_path(base_dir, new_key)),
                ..files[key]
            }
        }),
{
    lemma_rebased(key, from, to);
}

/// A move does not touch a file outside the directory whose key no moved file
/// takes.
pub proof fn law_move_leaves_others(
    files: Map<Seq<char>, TrackedView>,
    from: Seq<char>,
    to: Seq<char>,
    base_dir: Seq<u8>,
    canonical: Seq<(Vec<u8>, Vec<u8>)>,
    key: Seq<char>,
)
    requires
        files.contains_key(key),
        !is_under(key, from),
        !is_new_key(files, from, to, key),
    ensures
        moved_files(files, from, to, base_dir, canonical).contains_key(key),
        moved_files(files, from, to, base_dir, canonical)[key] == files[key],
{
}

/// Once a directory has moved somewhere else, nothing is tracked in its old
/// place.
pub proof fn law_move_empties_the_source(
    files: Map<Seq<char>, TrackedView>,
    from: Seq<char>,
    to: Seq<char>,
    base_dir: Seq<u8>,
    canonical: Seq<(Vec<u8>, Vec<u8>)>,
    key: Seq<char>,
)
    requires
        apart(from, to),
        is_under(key, from),
    ensures
        !moved_files(files, from, to, base_dir, canonical).contains_key(key),
{
    lemma_apart(key, from, to);
}

/// Moving a directory to a free place and back again tracks the same files with
/// the same content and times; those outside are not touched at all.
pub proof fn law_move_there_and_back(
    files: Map<Seq<char>, TrackedView>,
    from: Seq<char>,
    to: Seq<char>,
    base_dir: Seq<u8>,
    there: Seq<(Vec<u8>, Vec<u8>)>,
    back: Seq<(Vec<u8>, Vec<u8>)>,
)
    requires
        apart(from, to),
        forall|key: Seq<char>| #[trigger] is_under(key, to) ==> !files.contains_key(key),
    ensures
        ({
            let moved = moved_files(files, from, to, base_dir, there);
            let after = moved_files(moved, to, from, base_dir, back);
            &&& after.dom() == files.dom()
            &&& forall|key: Seq<char>| #[trigger]
                files.contains_key(key) ==> after[key] == TrackedView {
                    path: after[key].path,
                    ..files[key]
                }
            &&& forall|key: Seq<char>| #[trigger]
                files.contains_key(key) && !is_under(key, from) ==> after[key] == files[key]
        }),
{
    let moved = moved_files(files, from, to, base_dir, there);
    let after = moved_files(moved, to, from, base_dir, back);
    assert forall|key: Seq<char>|
        (after.contains_key(key) <==> files.contains_key(key)) && (files.contains_key(key)
            ==> after[key] == TrackedView { path: after[key].path, ..files[key] } && (!is_under(
            key,
            from,
        ) ==> after[key] == files[key])) by {
        lemma_apart(key, from, to);
        if is_under(key, from) {
            let r = rebased(key, from, to);
            lemma_rebased(key, from, to);
            assert(is_under(r, to));
            assert(moved.contains_key(r) <==> files.contains_key(key));
        } else {
            assert(!is_new_key(moved, to, from, key));
            if is_under(key, to) {
                assert(!files.contains_key(key));
            }
        }
    }
    assert(after.dom() =~= files.dom());
}

/// Once a directory is removed nothing is tracked in it, all other files are
/// tracked as before, and removing it again changes nothing.
pub proof fn law_remove_leaves_the_rest(
    files: Map<Seq<char>, TrackedView>,
    prefix: Seq<char>,
    key: Seq<char>,
)
    ensures
        is_under(key, prefix) ==> !files_outside(files, prefix).contains_key(key),
        files.contains_key(key) && !is_under(key, prefix) ==> files_outside(
            files,
            prefix,
        ).contains_key(key) && files_outside(files, prefix)[key] == files[key],
        files_outside(files_outside(files, prefix), prefix) == files_outside(files, prefix),
{
    assert(files_outside(files_outside(files, prefix), prefix) =~= files_outside(files, prefix));
}

/// Moving a directory to a free place and removing it there is the same as
/// removing it where it was.
pub proof fn law_remove_after_move(
    files: Map<Seq<char>, TrackedView>,
    from: Seq<char>,
    to: Seq<char>,
    base_dir: Seq<u8>,
    canonical: Seq<(Vec<u8>, Vec<u8>)>,
)
    requires
        apart(from, to),
        forall|key: Seq<char>| #[trigger] is_under(key, to) ==> !files.contains_key(key),
    ensures
        files_outside(moved_files(files, from, to, base_dir, canonical), to) == files_outside(
            files,
            from,
        ),
{
    let moved = moved_files(files, from, to, base_dir, canonical);
    assert forall|key: Seq<char>|
        files_outside(moved, to).contains_key(key) <==> files_outside(files, from).contains_key(
            key,
        ) by {
        if is_under(key, to) {
            assert(!files.contains_key(key));
        }
    }
    assert(files_outside(moved, to) =~= files_outside(files, from));
}

/// A moved file lies below the base directory at its new key, if that is a tidy
/// path.
pub proof fn law_moved_file_lies_at_its_key(base_dir: Seq<u8>, key: Seq<char>)
    requires
        crate::path::tidy(vstd::utf8::encode_utf8(key)),
    ensures
        crate::path::strip_prefix(moved_path(base_dir, key), base_dir) == Some(
            vstd::utf8::encode_utf8(key),
        ),
{
    crate::path::law_join_then_strip(base_dir, vstd::utf8::encode_utf8(key));
}

/// What lies in a directory is whatever stands behind its name and a slash,
/// whatever characters that holds; at another place it stands behind the name of
/// that place and a slash.
pub proof fn law_whatever_stands_behind_the_slash_lies_below(
    prefix: Seq<char>,
    to: Seq<char>,
    rest: Seq<char>,
    key: Seq<char>,
)
    ensures
        is_under(prefix, prefix),
        is_under(prefix.push('/') + rest, prefix),
        is_under(key, prefix) ==> key == prefix || exists|behind: Seq<char>|
            key == #[trigger] (prefix.push('/') + behind),
        rebased(prefix, prefix, to) == to,
        rebased(prefix.push('/') + rest, prefix, to) == to.push('/') + rest,
{
    let n = prefix.len() as int;
    let whole = prefix.push('/') + rest;
    assert(prefix.push('/') =~= whole.subrange(0, n + 1));
    assert(prefix.skip(n) =~= Seq::<char>::empty());
    assert(to + Seq::<char>::empty() =~= to);
    assert(whole.skip(n) =~= seq!['/'] + rest);
    assert(to + (seq!['/'] + rest) =~= to.push('/') + rest);
    if is_under(key, prefix) && key != prefix {
        assert(key =~= prefix.push('/') + key.skip(n + 1));
    }
}

/// Moving a directory takes along every file in it: what was tracked behind the old
/// name and a slash is tracked behind the new name and a slash, with the same
/// content and times, and with the path of its new place, or the canonical form of
/// that. A file that is moved itself is tracked under its new name.
pub proof fn law_move_takes_along_whatever_lies_below(
    files: Map<Seq<char>, TrackedView>,
    from: Seq<char>,
    to: Seq<char>,
    base_dir: Seq<u8>,
    canonical: Seq<(Vec<u8>, Vec<u8>)>,
    rest: Seq<char>,
)
    ensures
        ({
            let after = moved_files(files, from, to, base_dir, canonical);
            let old_key = from.push('/') + rest;
            let new_key = to.push('/') + rest;
            &&& files.contains_key(old_key) ==> after.contains_key(new_key) && after[new_key]
                == (TrackedView {
                path: canonical_of(
                    canonical,
                    crate::path::join(base_dir, vstd::utf8::encode_utf8(new_key)),
                ),
                last_modified: files[old_key].last_modified,
                created: files[old_key].created,
                html: files[old_key].html,
            })
            &&& files.contains_key(from) ==> after.contains_key(to) && after[to] == (TrackedView {
                path: canonical_of(
                    canonical,
                    crate::path::join(base_dir, vstd::utf8::encode_utf8(to)),
                ),
                last_modified: files[from].last_modified,
                created: files[from].created,
                html: files[from].html,
            })
        }),
{
    law_whatever_stands_behind_the_slash_lies_below(from, to, rest, from);
    if files.contains_key(from.push('/') + rest) {
        law_move_keeps_every_file(files, from, to, base_dir, canonical, from.push('/') + rest);
    }
    if files.contains_key(from) {
        law_move_keeps_every_file(files, from, to, base_dir, canonical, from);
    }
}

/// After a move nothing is tracked but what was tracked outside the directory, and
/// what was tracked in it, in its new place. A file outside stays as it is, unless
/// a moved file takes its key; one whose name only starts like that of the
/// directory lies outside.
pub proof fn law_move_tracks_nothing_else(
    files: Map<Seq<char>, TrackedView>,
    from: Seq<char>,
    to: Seq<char>,
    base_dir: Seq<u8>,
    canonical: Seq<(Vec<u8>, Vec<u8>)>,
    key: Seq<char>,
)
    ensures
        ({
            let after = moved_files(files, from, to, base_dir, canonical);
            let outside = key != from && !from.push('/').is_prefix_of(key);
            let taken = key == to && files.contains_key(from) || exists|rest: Seq<char>|
                key == #[trigger] (to.push('/') + rest) && files.contains_key(
                    from.push('/') + rest,
                );
            &&& after.contains_key(key) <==> taken || files.contains_key(key) && outside
            &&& files.contains_key(key) && outside && !taken ==> after[key] == files[key]
        }),
{
    let after = moved_files(files, from, to, base_dir, canonical);
    law_whatever_stands_behind_the_slash_lies_below(from, to, key, key);
    law_whatever_stands_behind_the_slash_lies_below(to, from, key, key);
    if is_new_key(files, from, to, key) {
        if key != to {
            let rest = choose|behind: Seq<char>| key == #[trigger] (to.push('/') + behind);
            law_whatever_stands_behind_the_slash_lies_below(to, from, rest, key);
            assert(files.contains_key(from.push('/') + rest));
        }
    }
    if exists|rest: Seq<char>|
        key == #[trigger] (to.push('/') + rest) && files.contains_key(from.push('/') + rest) {
        let rest = choose|rest: Seq<char>|
            key == #[trigger] (to.push('/') + rest) && files.contains_key(from.push('/') + rest);
        law_whatever_stands_behind_the_slash_lies_below(to, from, rest, key);
        assert(is_new_key(files, from, to, key));
    }
}

/// Once a directory has moved to a place that neither lies in it nor it in that
/// place, nothing is tracked any more behind its old name and a slash.
pub proof fn law_move_leaves_nothing_behind(
    files: Map<Seq<char>, TrackedView>,
    from: Seq<char>,
    to: Seq<char>,
    base_dir: Seq<u8>,
    canonical: Seq<(Vec<u8>, Vec<u8>)>,
    rest: Seq<char>,
)
    requires
        from != to,
        !from.push('/').is_prefix_of(to),
        !to.push('/').is_prefix_of(from),
    ensures
        !moved_files(files, from, to, base_dir, canonical).contains_key(from),
        !moved_files(files, from, to, base_dir, canonical).contains_key(from.push('/') + rest),
{
    law_whatever_stands_behind_the_slash_lies_below(from, to, rest, from);
    assert(apart(from, to)) by {
        law_whatever_stands_behind_the_slash_lies_below(from, to, rest, to);
        law_whatever_stands_behind_the_slash_lies_below(to, from, rest, from);
        if is_under(to, from) {
            let behind = choose|behind: Seq<char>| to == #[trigger] (from.push('/') + behind);
            assert(from.push('/') =~= to.subrange(0, from.len() as int + 1));
        }
        if is_under(from, to) {
            let behind = choose|behind: Seq<char>| from == #[trigger] (to.push('/') + behind);
            assert(to.push('/') =~= from.subrange(0, to.len() as int + 1));
        }
    }
    law_move_empties_the_source(files, from, to, base_dir, canonical, from);
    law_move_empties_the_source(files, from, to, base_dir, canonical, from.push('/') + rest);
}

/// Once a prefix is removed, no key is tracked that is the prefix or starts with the
/// prefix and a slash, whatever stands behind it. Every other file stays as it is.
pub proof fn law_remove_leaves_nothing_below(
    files: Map<Seq<char>, TrackedView>,
    prefix: Seq<char>,
    rest: Seq<char>,
    key: Seq<char>,
)
    ensures
        !files_outside(files, prefix).contains_key(prefix),
        !files_outside(files, prefix).contains_key(prefix.push('/') + rest),
        prefix.push('/').is_prefix_of(key) ==> !files_outside(files, prefix).contains_key(key),
        key != prefix && !prefix.push('/').is_prefix_of(key) ==> (files_outside(
            files,
            prefix,
        ).contains_key(key) <==> files.contains_key(key)),
        files_outside(files, prefix).contains_key(key) ==> files_outside(files, prefix)[key]
            == files[key],
{
    law_whatever_stands_behind_the_slash_lies_below(prefix, prefix, rest, key);
    if prefix.push('/').is_prefix_of(key) {
        let behind = key.skip(prefix.len() as int + 1);
        assert(key =~= prefix.push('/') + behind);
        law_whatever_stands_behind_the_slash_lies_below(prefix, prefix, behind, key);
    }
    if is_under(key, prefix) && key != prefix {
        let behind = choose|behind: Seq<char>| key == #[trigger] (prefix.push('/') + behind);
        assert(prefix.push('/') =~= key.subrange(0, prefix.len() as int + 1));
    }
}

/// The canonical form of a path is the one that was found for it first; where none
/// was found, the path stays as it is.
pub proof fn law_canonical_form_is_the_one_found(
    found: Seq<(Vec<u8>, Vec<u8>)>,
    path: Seq<u8>,
    i: int,
)
    ensures
        (forall|j: int| 0 <= j < found.len() ==> (#[trigger] found[j]).0@ != path) ==> canonical_of(
            found,
            path,
        ) == path,
        0 <= i < found.len() && found[i].0@ == path && (forall|j: int|
            0 <= j < i ==> (#[trigger] found[j]).0@ != path) ==> canonical_of(found, path)
            == found[i].1@,
    decreases found.len(),
{
    if found.len() > 0 && found[0].0@ != path {
        let rest = found.skip(1);
        law_canonical_form_is_the_one_found(rest, path, i - 1);
        if forall|j: int| 0 <= j < found.len() ==> (#[trigger] found[j]).0@ != path {
            assert forall|j: int| 0 <= j < rest.len() implies (#[trigger] rest[j]).0@ != path by {
                assert(rest[j] == found[j + 1]);
            }
        }
        if 0 <= i < found.len() && found[i].0@ == path && (forall|j: int|
            0 <= j < i ==> (#[trigger] found[j]).0@ != path) {
            assert(rest[i - 1] == found[i]);
            assert forall|j: int| 0 <= j < i - 1 implies (#[trigger] rest[j]).0@ != path by {
                assert(rest[j] == found[j + 1]);
            }
        }
    }
}

} // verus!
