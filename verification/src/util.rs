//! Which files are served and how: kinds of files by extension, and the files
//! and directories of a workspace.

use vstd::prelude::*;

use crate::order::sort;
#[allow(unused_imports)]
use crate::order::{sorted, stably_sorted, text_order, views};
#[allow(unused_imports)]
use crate::path::path_order;
use crate::path::{has_component, path_extension, path_file_name, path_strip_prefix, same_bytes};
use crate::text::{from_utf8, from_utf8_lossy, same_text, to_lowercase};

verus! {

/// A byte with an ASCII upper case letter made lower case.
pub open spec fn ascii_lower(b: u8) -> u8 {
    if 65 <= b <= 90 {
        (b + 32) as u8
    } else {
        b
    }
}

/// Whether two sequences of bytes are the same but for the case of ASCII
/// letters.
pub open spec fn same_ignoring_case(a: Seq<u8>, b: Seq<u8>) -> bool {
    &&& a.len() == b.len()
    &&& forall|i: int| 0 <= i < a.len() ==> ascii_lower(#[trigger] a[i]) == ascii_lower(b[i])
}

/// Whether the extension of a path is the given word, in any ASCII case.
pub open spec fn has_extension(path: Seq<u8>, word: Seq<char>) -> bool {
    match crate::path::extension(path) {
        Some(ext) => same_ignoring_case(ext, vstd::utf8::encode_utf8(word)),
        None => false,
    }
}

fn lower(b: u8) -> (out: u8)
    ensures
        out == ascii_lower(b),
{
    if 65 <= b && b <= 90 {
        b + 32
    } else {
        b
    }
}

fn extension_is(path: &[u8], word: &str) -> (r: bool)
    ensures
        r == has_extension(path@, word@),
{
    match path_extension(path) {
        Some(ext) => {
            let wanted = word.as_bytes();
            if ext.len() != wanted.len() {
                return false;
            }
            for i in 0..ext.len()
                invariant
                    ext@.len() == wanted@.len(),
                    wanted@ == vstd::utf8::encode_utf8(word@),
                    crate::path::extension(path@) == Some(ext@),
                    forall|j: int| 0 <= j < i ==> ascii_lower(#[trigger] ext@[j]) == ascii_lower(wanted@[j]),
            {
                if lower(ext[i]) != lower(wanted[i]) {
                    return false;
                }
            }
            true
        },
        None => false,
    }
}

pub open spec fn is_markdown(path: Seq<u8>) -> bool {
    has_extension(path, "md"@) || has_extension(path, "markdown"@)
}

pub open spec fn is_text(path: Seq<u8>) -> bool {
    has_extension(path, "txt"@)
}

pub open spec fn is_json(path: Seq<u8>) -> bool {
    has_extension(path, "json"@)
}

pub open spec fn is_csv(path: Seq<u8>) -> bool {
    has_extension(path, "csv"@)
}

pub open spec fn is_yaml(path: Seq<u8>) -> bool {
    has_extension(path, "yaml"@) || has_extension(path, "yml"@)
}

pub open spec fn is_toml(path: Seq<u8>) -> bool {
    has_extension(path, "toml"@)
}

pub open spec fn is_mermaid(path: Seq<u8>) -> bool {
    has_extension(path, "mmd"@)
}

/// Whether a path names a file of one of the kinds that are served as pages.
pub open spec fn is_supported(path: Seq<u8>) -> bool {
    is_markdown(path) || is_text(path) || is_json(path) || is_csv(path) || is_yaml(path)
        || is_toml(path) || is_mermaid(path)
}

/// Whether a path names a Markdown file.
pub fn is_markdown_file(path: &[u8]) -> (r: bool)
    ensures
        r == is_markdown(path@),
{
    extension_is(path, "md") || extension_is(path, "markdown")
}

/// Whether a path names a plain text file.
pub fn is_text_file(path: &[u8]) -> (r: bool)
    ensures
        r == is_text(path@),
{
    extension_is(path, "txt")
}

/// Whether a path names a JSON file.
pub fn is_json_file(path: &[u8]) -> (r: bool)
    ensures
        r == is_json(path@),
{
    extension_is(path, "json")
}

/// Whether a path names a CSV file.
pub fn is_csv_file(path: &[u8]) -> (r: bool)
    ensures
        r == is_csv(path@),
{
    extension_is(path, "csv")
}

/// Whether a path names a YAML file.
pub fn is_yaml_file(path: &[u8]) -> (r: bool)
    ensures
        r == is_yaml(path@),
{
    extension_is(path, "yaml") || extension_is(path, "yml")
}

/// Whether a path names a TOML file.
pub fn is_toml_file(path: &[u8]) -> (r: bool)
    ensures
        r == is_toml(path@),
{
    extension_is(path, "toml")
}

/// Whether a path names a Mermaid diagram.
pub fn is_mermaid_file(path: &[u8]) -> (r: bool)
    ensures
        r == is_mermaid(path@),
{
    extension_is(path, "mmd")
}

/// Whether a path names a file of one of the kinds that are served as pages.
pub fn is_supported_file(path: &[u8]) -> (r: bool)
    ensures
        r == is_supported(path@),
{
    is_markdown_file(path) || is_text_file(path) || is_json_file(path) || is_csv_file(path)
        || is_yaml_file(path) || is_toml_file(path) || is_mermaid_file(path)
}

/// The class under which a file of this name is shown.
pub open spec fn class_of(path: Seq<u8>) -> Seq<char> {
    if is_markdown(path) {
        "markdown"@
    } else if is_json(path) {
        "json"@
    } else if is_csv(path) {
        "csv"@
    } else if is_yaml(path) {
        "yaml"@
    } else if is_toml(path) {
        "toml"@
    } else if is_mermaid(path) {
        "mermaid"@
    } else if is_text(path) {
        "plaintext"@
    } else {
        "unknown"@
    }
}

/// The class under which a file of this name is shown.
pub fn file_type_class(filename: &str) -> (class: &'static str)
    ensures
        class@ == class_of(vstd::utf8::encode_utf8(filename@)),
{
    let path = filename.as_bytes();
    if is_markdown_file(path) {
        "markdown"
    } else if is_json_file(path) {
        "json"
    } else if is_csv_file(path) {
        "csv"
    } else if is_yaml_file(path) {
        "yaml"
    } else if is_toml_file(path) {
        "toml"
    } else if is_mermaid_file(path) {
        "mermaid"
    } else if is_text_file(path) {
        "plaintext"
    } else {
        "unknown"
    }
}

/// The extension of a path as text, empty where there is none or where it is
/// not valid UTF-8.
pub open spec fn extension_text(path: Seq<u8>) -> Seq<char> {
    match crate::path::extension(path) {
        Some(ext) => match crate::text::utf8_text(ext) {
            Some(text) => text,
            None => Seq::<char>::empty(),
        },
        None => Seq::<char>::empty(),
    }
}

/// The extension of a path as text, in lower case.
pub open spec fn lower_extension(path: Seq<u8>) -> Seq<char> {
    crate::text::lowercase_of(crate::text::ascii_lower_text(extension_text(path)))
}

fn lowercase_extension(path: &[u8]) -> (ext: String)
    ensures
        ext@ == lower_extension(path@),
        ext@ == crate::text::lowercase_of(extension_text(path@)),
        vstd::utf8::is_ascii_chars(extension_text(path@)) ==> ext@
            == crate::text::ascii_lower_text(extension_text(path@)),
{
    let text = match path_extension(path) {
        Some(ext) => match from_utf8(ext) {
            Some(text) => text,
            None => String::new(),
        },
        None => String::new(),
    };
    assert(text@ =~= extension_text(path@));
    to_lowercase(text.as_str())
}

/// Whether a lower case extension is that of an image.
pub open spec fn names_image(ext: Seq<char>) -> bool {
    ext == "png"@ || ext == "jpg"@ || ext == "jpeg"@ || ext == "gif"@ || ext == "svg"@ || ext
        == "webp"@ || ext == "bmp"@ || ext == "ico"@
}

/// Whether a lower case extension is that of an image.
pub fn is_image_extension(ext: &str) -> (r: bool)
    ensures
        r == names_image(ext@),
{
    same_text(ext, "png") || same_text(ext, "jpg") || same_text(ext, "jpeg") || same_text(
        ext,
        "gif",
    ) || same_text(ext, "svg") || same_text(ext, "webp") || same_text(ext, "bmp") || same_text(
        ext,
        "ico",
    )
}

/// The media type of an image with the given lower case extension.
pub open spec fn media_type(ext: Seq<char>) -> Seq<char> {
    if ext == "png"@ {
        "image/png"@
    } else if ext == "jpg"@ || ext == "jpeg"@ {
        "image/jpeg"@
    } else if ext == "gif"@ {
        "image/gif"@
    } else if ext == "svg"@ {
        "image/svg+xml"@
    } else if ext == "webp"@ {
        "image/webp"@
    } else if ext == "bmp"@ {
        "image/bmp"@
    } else if ext == "ico"@ {
        "image/x-icon"@
    } else {
        "application/octet-stream"@
    }
}

/// The media type of an image with the given lower case extension.
pub fn image_media_type(ext: &str) -> (media: String)
    ensures
        media@ == media_type(ext@),
{
    let media = if same_text(ext, "png") {
        "image/png"
    } else if same_text(ext, "jpg") || same_text(ext, "jpeg") {
        "image/jpeg"
    } else if same_text(ext, "gif") {
        "image/gif"
    } else if same_text(ext, "svg") {
        "image/svg+xml"
    } else if same_text(ext, "webp") {
        "image/webp"
    } else if same_text(ext, "bmp") {
        "image/bmp"
    } else if same_text(ext, "ico") {
        "image/x-icon"
    } else {
        "application/octet-stream"
    };
    media.to_owned()
}

/// Whether a path names an image: its extension in lower case is that of one.
pub open spec fn is_image(path: Seq<u8>) -> bool {
    names_image(lower_extension(path))
}

/// Whether a path names an image.
pub fn is_image_file(file_path: &str) -> (r: bool)
    ensures
        r == is_image(vstd::utf8::encode_utf8(file_path@)),
        r ==> !is_supported(vstd::utf8::encode_utf8(file_path@)),
        ({
            let ext = extension_text(vstd::utf8::encode_utf8(file_path@));
            vstd::utf8::is_ascii_chars(ext) ==> r == names_image(
                crate::text::ascii_lower_text(ext),
            )
        }),
{
    let ext = lowercase_extension(file_path.as_bytes());
    proof {
        lemma_supported_is_no_image(vstd::utf8::encode_utf8(file_path@));
    }
    is_image_extension(ext.as_str())
}

/// The media type under which an image file is sent.
pub fn guess_image_content_type(file_path: &str) -> (media: String)
    ensures
        media@ == media_type(lower_extension(vstd::utf8::encode_utf8(file_path@))),
        ({
            let ext = extension_text(vstd::utf8::encode_utf8(file_path@));
            vstd::utf8::is_ascii_chars(ext) ==> media@ == media_type(
                crate::text::ascii_lower_text(ext),
            )
        }),
{
    let ext = lowercase_extension(file_path.as_bytes());
    image_media_type(ext.as_str())
}

/// The name of the directory in which the program keeps its own files.
pub open spec fn mdlive_name() -> Seq<u8> {
    vstd::utf8::encode_utf8(".mdlive"@)
}

/// Whether a path is the program's own directory, or lies in one.
pub open spec fn in_mdlive(path: Seq<u8>) -> bool {
    crate::path::components(path).contains(mdlive_name())
}

/// Whether a path is the program's own directory, or lies in one.
pub fn is_mdlive_path(path: &[u8]) -> (r: bool)
    ensures
        r == in_mdlive(path@),
{
    has_component(path, ".mdlive".as_bytes())
}

/// Whether the last component of a path is the name of the program's own
/// directory.
pub open spec fn named_mdlive(path: Seq<u8>) -> bool {
    crate::path::file_name(path) == Some(mdlive_name())
}

/// Whether the last component of a path is the name of the program's own
/// directory. Such directories are not scanned.
pub fn is_mdlive_dir(path: &[u8]) -> (r: bool)
    ensures
        r == named_mdlive(path@),
{
    match path_file_name(path) {
        Some(name) => same_bytes(name, ".mdlive".as_bytes()),
        None => false,
    }
}

/// One entry of a directory, as found on disk.
pub enum Entry {
    /// A file, or a link to one.
    File(Vec<u8>),
    /// A directory, or a link to one, with what reading it gave.
    Directory(Vec<u8>, Listing),
    /// Anything else.
    Other(Vec<u8>),
    /// An entry that could not be read.
    Failed(String),
}

/// What reading a directory gave.
pub enum Listing {
    /// Its entries, in the order in which they were read.
    Entries(Vec<Entry>),
    /// The directory could not be opened.
    Failed(String),
}

/// The supported files below a directory, in the order in which they are met,
/// or the first error. The program's own directories are passed over.
pub open spec fn supported_in(listing: Listing) -> Result<Seq<Seq<u8>>, Seq<char>>
    decreases listing, 0int,
{
    match listing {
        Listing::Entries(entries) => supported_among(entries@, entries@.len()),
        Listing::Failed(error) => Err(error@),
    }
}

/// The same for the first `n` entries of a directory.
pub open spec fn supported_among(entries: Seq<Entry>, n: nat) -> Result<Seq<Seq<u8>>, Seq<char>>
    decreases entries, n,
{
    if n == 0 || n > entries.len() {
        Ok(Seq::<Seq<u8>>::empty())
    } else {
        match supported_among(entries, (n - 1) as nat) {
            Err(error) => Err(error),
            Ok(before) => match entries[n - 1] {
                Entry::File(path) => if is_supported(path@) {
                    Ok(before.push(path@))
                } else {
                    Ok(before)
                },
                Entry::Directory(path, listing) => if named_mdlive(path@) {
                    Ok(before)
                } else {
                    match supported_in(listing) {
                        Ok(below) => Ok(before + below),
                        Err(error) => Err(error),
                    }
                },
                Entry::Other(_) => Ok(before),
                Entry::Failed(error) => Err(error@),
            },
        }
    }
}

/// Adds the supported files below a directory to `files`.
fn scan_recursive(listing: &Listing, files: &mut Vec<Vec<u8>>) -> (done: Result<(), String>)
    ensures
        match supported_in(*listing) {
            Ok(found) => done is Ok && views(final(files)@) == views(old(files)@) + found,
            Err(error) => crate::text::fails_with(done, error),
        },
    decreases listing,
{
    match listing {
        Listing::Failed(error) => Err(error.clone()),
        Listing::Entries(entries) => {
            let ghost before = views(files@);
            assert(before =~= before + Seq::<Seq<u8>>::empty());
            for i in 0..entries.len()
                invariant
                    *listing == Listing::Entries(*entries),
                    supported_among(entries@, i as nat) is Ok,
                    views(files@) == before + supported_among(entries@, i as nat)->Ok_0,
            {
                let ghost met = supported_among(entries@, i as nat)->Ok_0;
                match &entries[i] {
                    Entry::File(path) => {
                        if is_supported_file(path.as_slice()) {
                            let ghost held = files@;
                            files.push(vstd::slice::slice_to_vec(path.as_slice()));
                            assert(views(files@) =~= views(held).push(path@));
                            assert(before + met.push(path@) =~= (before + met).push(path@));
                        }
                    },
                    Entry::Directory(path, below) => {
                        if !is_mdlive_dir(path.as_slice()) {
                            assert(decreases_to!(listing => entries@[i as int]));
                            let done = scan_recursive(below, files);
                            if done.is_err() {
                                proof {
                                    lemma_first_error(entries@, (i + 1) as nat);
                                }
                                return done;
                            }
                            assert(before + (met + supported_in(*below)->Ok_0) =~= (before + met)
                                + supported_in(*below)->Ok_0);
                        }
                    },
                    Entry::Other(_) => {},
                    Entry::Failed(error) => {
                        proof {
                            lemma_first_error(entries@, (i + 1) as nat);
                        }
                        return Err(error.clone());
                    },
                }
            }
            Ok(())
        },
    }
}

/// Once an entry has failed, what follows does not change the outcome.
proof fn lemma_first_error(entries: Seq<Entry>, n: nat)
    requires
        n <= entries.len(),
        supported_among(entries, n) is Err,
    ensures
        supported_among(entries, entries.len()) == supported_among(entries, n),
    decreases entries.len() - n,
{
    if n < entries.len() {
        assert(supported_among(entries, n + 1) == supported_among(entries, n));
        lemma_first_error(entries, n + 1);
    }
}

/// The paths of all supported files below a directory, sorted, or the first
/// error met. The program's own directories are passed over.
pub fn scan_supported_files(directory: &Listing) -> (found: Result<Vec<Vec<u8>>, String>)
    ensures
        match supported_in(*directory) {
            Ok(files) => found matches Ok(paths) && stably_sorted(
                files,
                views(paths@),
                path_order(),
            ),
            Err(error) => crate::text::fails_with(found, error),
        },
{
    let mut files: Vec<Vec<u8>> = Vec::new();
    assert(views(files@) =~= Seq::<Seq<u8>>::empty());
    match scan_recursive(directory, &mut files) {
        Ok(()) => {
            proof {
                let found = supported_in(*directory)->Ok_0;
                assert(Seq::<Seq<u8>>::empty() + found =~= found);
            }
            Ok(sort(files))
        },
        Err(error) => Err(error),
    }
}

/// The directories below a directory, each as the text of its path below
/// `root`, in the order in which they are met. What cannot be read is passed
/// over.
pub open spec fn directories_in(root: Seq<u8>, listing: Listing) -> Seq<Seq<char>>
    decreases listing, 0int,
{
    match listing {
        Listing::Entries(entries) => directories_among(root, entries@, entries@.len()),
        Listing::Failed(_) => Seq::<Seq<char>>::empty(),
    }
}

/// The same for the first `n` entries of a directory.
pub open spec fn directories_among(root: Seq<u8>, entries: Seq<Entry>, n: nat) -> Seq<Seq<char>>
    decreases entries, n,
{
    if n == 0 || n > entries.len() {
        Seq::<Seq<char>>::empty()
    } else {
        let before = directories_among(root, entries, (n - 1) as nat);
        match entries[n - 1] {
            Entry::Directory(path, listing) => before + directory_itself(root, path@)
                + directories_in(root, listing),
            _ => before,
        }
    }
}

/// The text of a directory's path below `root`, if it lies there and is not
/// `root` itself.
pub open spec fn directory_itself(root: Seq<u8>, path: Seq<u8>) -> Seq<Seq<char>> {
    match crate::path::strip_prefix(path, root) {
        Some(rest) => if crate::text::lossy_text(rest).len() > 0 {
            seq![crate::text::lossy_text(rest)]
        } else {
            Seq::<Seq<char>>::empty()
        },
        None => Seq::<Seq<char>>::empty(),
    }
}

/// Adds the directories below a directory to `out`.
fn scan_dirs_recursive(root: &[u8], listing: &Listing, out: &mut Vec<String>)
    ensures
        views(final(out)@) == views(old(out)@) + directories_in(root@, *listing),
    decreases listing,
{
    let ghost before = views(out@);
    assert(before =~= before + Seq::<Seq<char>>::empty());
    match listing {
        Listing::Failed(_) => {},
        Listing::Entries(entries) => {
            for i in 0..entries.len()
                invariant
                    *listing == Listing::Entries(*entries),
                    views(out@) == before + directories_among(root@, entries@, i as nat),
            {
                let ghost met = directories_among(root@, entries@, i as nat);
                match &entries[i] {
                    Entry::Directory(path, below) => {
                        assert(decreases_to!(listing => listing->Entries_0));
                        assert(decreases_to!(listing => entries@[i as int]));
                        let ghost held = out@;
                        match path_strip_prefix(path.as_slice(), root) {
                            Some(rest) => {
                                let rel = from_utf8_lossy(rest);
                                if !rel.as_str().is_empty() {
                                    out.push(rel);
                                }
                            },
                            None => {},
                        }
                        assert(views(out@) =~= views(held) + directory_itself(root@, path@));
                        scan_dirs_recursive(root, below, out);
                        assert(before + (met + directory_itself(root@, path@) + directories_in(
                            root@,
                            *below,
                        )) =~= (before + met) + directory_itself(root@, path@)
                            + directories_in(root@, *below));
                    },
                    _ => {},
                }
            }
        },
    }
}

/// Every directory below the base directory as the text of its path from
/// there, sorted, so that empty directories show up in the sidebar too.
pub fn scan_directories(base_dir: &[u8], directory: &Listing) -> (dirs: Vec<String>)
    ensures
        sorted(views(dirs@), text_order()),
        views(dirs@).to_multiset() == directories_in(base_dir@, *directory).to_multiset(),
{
    let mut dirs: Vec<String> = Vec::new();
    assert(views(dirs@) =~= Seq::<Seq<char>>::empty());
    scan_dirs_recursive(base_dir, directory, &mut dirs);
    proof {
        let found = directories_in(base_dir@, *directory);
        assert(Seq::<Seq<char>>::empty() + found =~= found);
    }
    sort(dirs)
}

/// A word of lower case ASCII letters.
spec fn is_lower_word(word: Seq<char>) -> bool {
    forall|i: int| 0 <= i < word.len() ==> 'a' <= #[trigger] word[i] <= 'z'
}

/// A path has at most one extension, in whatever case.
proof fn lemma_one_extension(path: Seq<u8>, a: Seq<char>, b: Seq<char>)
    requires
        is_lower_word(a),
        is_lower_word(b),
        has_extension(path, a),
        has_extension(path, b),
    ensures
        a == b,
{
    assert(vstd::utf8::is_ascii_chars(a) && vstd::utf8::is_ascii_chars(b));
    vstd::utf8::is_ascii_chars_encode_utf8(a);
    vstd::utf8::is_ascii_chars_encode_utf8(b);
    let ext = crate::path::extension(path)->0;
    let x = vstd::utf8::encode_utf8(a);
    let y = vstd::utf8::encode_utf8(b);
    assert forall|i: int| 0 <= i < a.len() implies a[i] == b[i] by {
        assert(ascii_lower(ext[i]) == ascii_lower(x[i]));
        assert(ascii_lower(ext[i]) == ascii_lower(y[i]));
        assert(a[i] as u8 == x[i] && b[i] as u8 == y[i]);
    }
    assert(a =~= b);
}

proof fn reveal_extensions()
    ensures
        is_lower_word("md"@) && "md"@.len() == 2,
        is_lower_word("markdown"@) && "markdown"@.len() == 8,
        is_lower_word("txt"@) && "txt"@.len() == 3 && "txt"@[0] == 't',
        is_lower_word("json"@) && "json"@.len() == 4 && "json"@[0] == 'j',
        is_lower_word("csv"@) && "csv"@.len() == 3 && "csv"@[0] == 'c',
        is_lower_word("yaml"@) && "yaml"@.len() == 4 && "yaml"@[0] == 'y',
        is_lower_word("yml"@) && "yml"@.len() == 3 && "yml"@[0] == 'y',
        is_lower_word("toml"@) && "toml"@.len() == 4 && "toml"@[0] == 't',
        is_lower_word("mmd"@) && "mmd"@.len() == 3 && "mmd"@[0] == 'm',
{
    reveal_strlit("md");
    reveal_strlit("markdown");
    reveal_strlit("txt");
    reveal_strlit("json");
    reveal_strlit("csv");
    reveal_strlit("yaml");
    reveal_strlit("yml");
    reveal_strlit("toml");
    reveal_strlit("mmd");
}

/// The extension of a supported file, in lower case.
proof fn lemma_extension_of_supported(path: Seq<u8>) -> (word: Seq<char>)
    requires
        is_supported(path),
    ensures
        is_lower_word(word),
        has_extension(path, word),
        word == "md"@ || word == "markdown"@ || word == "txt"@ || word == "json"@ || word
            == "csv"@ || word == "yaml"@ || word == "yml"@ || word == "toml"@ || word == "mmd"@,
{
    reveal_extensions();
    if has_extension(path, "md"@) {
        "md"@
    } else if has_extension(path, "markdown"@) {
        "markdown"@
    } else if has_extension(path, "txt"@) {
        "txt"@
    } else if has_extension(path, "json"@) {
        "json"@
    } else if has_extension(path, "csv"@) {
        "csv"@
    } else if has_extension(path, "yaml"@) {
        "yaml"@
    } else if has_extension(path, "yml"@) {
        "yml"@
    } else if has_extension(path, "toml"@) {
        "toml"@
    } else {
        "mmd"@
    }
}

/// The extension of a path that has a given one, in whatever case, is ASCII
/// text, and the given one in lower case.
proof fn lemma_extension_text(path: Seq<u8>, word: Seq<char>)
    requires
        is_lower_word(word),
        has_extension(path, word),
    ensures
        vstd::utf8::is_ascii_chars(extension_text(path)),
        crate::text::ascii_lower_text(extension_text(path)) == word,
{
    let ext = crate::path::extension(path)->0;
    let bytes = vstd::utf8::encode_utf8(word);
    assert(vstd::utf8::is_ascii_chars(word));
    vstd::utf8::is_ascii_chars_encode_utf8(word);
    let text = Seq::new(ext.len(), |i: int| ext[i] as char);
    assert forall|i: int| 0 <= i < ext.len() implies ext[i] < 128 && text[i] as u8 == ext[i]
        && crate::text::ascii_lower_char(text[i]) == word[i] by {
        assert(ascii_lower(ext[i]) == ascii_lower(bytes[i]));
        assert(word[i] as u8 == bytes[i]);
    }
    assert(vstd::utf8::is_ascii_chars(text));
    vstd::utf8::is_ascii_chars_encode_utf8(text);
    assert(vstd::utf8::encode_utf8(text) =~= ext) by {
        assert forall|i: int| 0 <= i < ext.len() implies vstd::utf8::encode_utf8(text)[i]
            == ext[i] by {
            assert(text[i] as u8 == ext[i]);
        }
    }
    vstd::utf8::encode_utf8_valid_utf8(text);
    vstd::utf8::encode_utf8_decode_utf8(text);
    assert(extension_text(path) == text);
    assert(crate::text::ascii_lower_text(text) =~= word);
}

proof fn lemma_supported_is_no_image(path: Seq<u8>)
    ensures
        is_supported(path) ==> vstd::utf8::is_ascii_chars(extension_text(path)) && !names_image(
            crate::text::ascii_lower_text(extension_text(path)),
        ),
{
    if is_supported(path) {
        let word = lemma_extension_of_supported(path);
        lemma_extension_text(path, word);
        reveal_extensions();
        reveal_strlit("png");
        reveal_strlit("jpg");
        reveal_strlit("jpeg");
        reveal_strlit("gif");
        reveal_strlit("svg");
        reveal_strlit("webp");
        reveal_strlit("bmp");
        reveal_strlit("ico");
        reveal_strlit("json");
        assert("png"@[0] == 'p' && "jpg"@[0] == 'j' && "gif"@[0] == 'g' && "svg"@[0] == 's'
            && "bmp"@[0] == 'b' && "ico"@[0] == 'i' && "webp"@[0] == 'w');
        assert("png"@.len() == 3 && "jpg"@.len() == 3 && "gif"@.len() == 3 && "svg"@.len() == 3
            && "bmp"@.len() == 3 && "ico"@.len() == 3 && "webp"@.len() == 4 && "jpeg"@.len() == 4);
        assert("jpeg"@[0] == 'j' && "jpeg"@[1] == 'p' && "json"@[1] == 's');
    }
}

/// The class of a file tells which kind of file it is: each kind has its own,
/// and those that are not supported have the class `unknown`.
pub proof fn law_class_tells_the_kind(path: Seq<u8>)
    ensures
        class_of(path) == "markdown"@ <==> is_markdown(path),
        class_of(path) == "json"@ <==> is_json(path),
        class_of(path) == "csv"@ <==> is_csv(path),
        class_of(path) == "yaml"@ <==> is_yaml(path),
        class_of(path) == "toml"@ <==> is_toml(path),
        class_of(path) == "mermaid"@ <==> is_mermaid(path),
        class_of(path) == "plaintext"@ <==> is_text(path),
        class_of(path) == "unknown"@ <==> !is_supported(path),
{
    reveal_extensions();
    reveal_strlit("mermaid");
    reveal_strlit("plaintext");
    reveal_strlit("unknown");
    if is_supported(path) {
        let word = lemma_extension_of_supported(path);
        assert forall|other: Seq<char>| is_lower_word(other) && #[trigger] has_extension(path, other)
            implies other == word by {
            lemma_one_extension(path, word, other);
        }
    }
    assert("json"@[0] != "toml"@[0] && "json"@[0] != "yaml"@[0] && "yaml"@[0] != "toml"@[0]);
    assert("mermaid"@.len() == 7 && "plaintext"@.len() == 9 && "unknown"@.len() == 7);
    assert("mermaid"@[0] != "unknown"@[0]);
}

/// Images, and only those, are sent with a media type of an image; all else is
/// sent as a stream of bytes.
pub proof fn law_media_type_tells_images(path: Seq<u8>)
    ensures
        "image/"@.is_prefix_of(media_type(lower_extension(path))) <==> is_image(path),
        media_type(lower_extension(path)) == "application/octet-stream"@ <==> !is_image(path),
{
    reveal_strlit("image/");
    reveal_strlit("image/png");
    reveal_strlit("image/jpeg");
    reveal_strlit("image/gif");
    reveal_strlit("image/svg+xml");
    reveal_strlit("image/webp");
    reveal_strlit("image/bmp");
    reveal_strlit("image/x-icon");
    reveal_strlit("application/octet-stream");
    let media = media_type(lower_extension(path));
    let image = "image/"@;
    assert("application/octet-stream"@[0] == 'a');
    if is_image(path) {
        assert(media[0] == 'i');
        assert(image =~= media.subrange(0, 6));
    } else {
        assert(media.subrange(0, 6)[0] != image[0]);
    }
}

proof fn lemma_decode_ignoring_case(a: Seq<u8>, b: Seq<u8>)
    requires
        same_ignoring_case(a, b),
    ensures
        vstd::utf8::valid_utf8(a) ==> vstd::utf8::valid_utf8(b) && crate::text::ascii_lower_text(
            vstd::utf8::decode_utf8(a),
        ) == crate::text::ascii_lower_text(vstd::utf8::decode_utf8(b)),
    decreases a.len(),
{
    if vstd::utf8::valid_utf8(a) {
        if a.len() == 0 {
            assert(a =~= b);
        } else {
            // every byte that is not ASCII is the same in both
            assert(forall|i: int| 0 <= i < a.len() && a[i] >= 128 ==> b[i] == #[trigger] a[i]);
            assert(ascii_lower(a[0]) == ascii_lower(b[0]));
            assert(a[0] < 128 ==> b[0] < 128);
            let n = vstd::utf8::length_of_first_scalar(a);
            let x = vstd::utf8::pop_first_scalar(a);
            let y = vstd::utf8::pop_first_scalar(b);
            let c = vstd::utf8::decode_first_scalar(a);
            let d = vstd::utf8::decode_first_scalar(b);
            if a[0] < 128 {
                let p = a[0];
                let q = b[0];
                assert((p & 0x7F) as u32 == p as u32) by (bit_vector)
                    requires
                        p < 128,
                ;
                assert((q & 0x7F) as u32 == q as u32) by (bit_vector)
                    requires
                        q < 128,
                ;
                assert(c == p && d == q);
            } else {
                assert(c == d);
            }
            assert(crate::text::ascii_lower_char(c as char) == crate::text::ascii_lower_char(
                d as char,
            ));
            assert(vstd::utf8::valid_first_scalar(b));
            assert(n == vstd::utf8::length_of_first_scalar(b));
            assert forall|i: int| 0 <= i < x.len() implies ascii_lower(#[trigger] x[i])
                == ascii_lower(y[i]) by {
                assert(x[i] == a[n + i] && y[i] == b[n + i]);
            }
            lemma_decode_ignoring_case(x, y);
            assert(crate::text::ascii_lower_text(vstd::utf8::decode_utf8(a))
                =~= seq![crate::text::ascii_lower_char(c as char)]
                + crate::text::ascii_lower_text(vstd::utf8::decode_utf8(x)));
            assert(crate::text::ascii_lower_text(vstd::utf8::decode_utf8(b))
                =~= seq![crate::text::ascii_lower_char(d as char)]
                + crate::text::ascii_lower_text(vstd::utf8::decode_utf8(y)));
        }
    }
}

/// Whether the extensions of two paths differ in the case of ASCII letters at
/// most.
pub open spec fn same_extension(a: Seq<u8>, b: Seq<u8>) -> bool {
    match (crate::path::extension(a), crate::path::extension(b)) {
        (Some(x), Some(y)) => same_ignoring_case(x, y),
        (None, None) => true,
        _ => false,
    }
}

/// The case of ASCII letters in an extension does not matter: neither for the
/// kind of a file, nor for whether it is an image and its media type.
pub proof fn law_extensions_ignore_case(a: Seq<u8>, b: Seq<u8>)
    requires
        same_extension(a, b),
    ensures
        class_of(a) == class_of(b),
        is_supported(a) == is_supported(b),
        is_image(a) == is_image(b),
        media_type(lower_extension(a)) == media_type(lower_extension(b)),
{
    match (crate::path::extension(a), crate::path::extension(b)) {
        (Some(x), Some(y)) => {
            lemma_decode_ignoring_case(x, y);
            assert(same_ignoring_case(y, x)) by {
                assert forall|i: int| 0 <= i < y.len() implies ascii_lower(#[trigger] y[i])
                    == ascii_lower(x[i]) by {
                    assert(ascii_lower(x[i]) == ascii_lower(y[i]));
                }
            }
            lemma_decode_ignoring_case(y, x);
            assert(crate::text::ascii_lower_text(extension_text(a))
                == crate::text::ascii_lower_text(extension_text(b)));
            assert forall|word: Seq<char>| #[trigger] has_extension(a, word) == has_extension(
                b,
                word,
            ) by {
                let w = vstd::utf8::encode_utf8(word);
                if has_extension(a, word) {
                    assert forall|i: int| 0 <= i < y.len() implies ascii_lower(#[trigger] y[i])
                        == ascii_lower(w[i]) by {
                        assert(ascii_lower(x[i]) == ascii_lower(w[i]));
                    }
                }
                if has_extension(b, word) {
                    assert forall|i: int| 0 <= i < x.len() implies ascii_lower(#[trigger] x[i])
                        == ascii_lower(w[i]) by {
                        assert(ascii_lower(y[i]) == ascii_lower(w[i]));
                    }
                }
            }
        },
        _ => {},
    }
}

/// Whether a file is listed below a directory, at any depth. What lies in the
/// program's own directories does not count.
pub open spec fn lists(listing: Listing, path: Seq<u8>) -> bool
    decreases listing, 0int,
{
    match listing {
        Listing::Entries(entries) => lists_among(entries@, entries@.len(), path),
        Listing::Failed(_) => false,
    }
}

/// The same for the first `n` entries of a directory.
pub open spec fn lists_among(entries: Seq<Entry>, n: nat, path: Seq<u8>) -> bool
    decreases entries, n,
{
    if n == 0 || n > entries.len() {
        false
    } else {
        lists_among(entries, (n - 1) as nat, path) || match entries[n - 1] {
            Entry::File(file) => file@ == path,
            Entry::Directory(dir, listing) => !named_mdlive(dir@) && lists(listing, path),
            _ => false,
        }
    }
}

/// Whether everything below a directory could be read, outside the program's own
/// directories.
pub open spec fn readable(listing: Listing) -> bool
    decreases listing, 0int,
{
    match listing {
        Listing::Entries(entries) => readable_among(entries@, entries@.len()),
        Listing::Failed(_) => false,
    }
}

/// The same for the first `n` entries of a directory.
pub open spec fn readable_among(entries: Seq<Entry>, n: nat) -> bool
    decreases entries, n,
{
    if n == 0 || n > entries.len() {
        true
    } else {
        readable_among(entries, (n - 1) as nat) && match entries[n - 1] {
            Entry::Directory(dir, listing) => named_mdlive(dir@) || readable(listing),
            Entry::Failed(_) => false,
            _ => true,
        }
    }
}

proof fn lemma_scan_among(entries: Seq<Entry>, n: nat, path: Seq<u8>)
    ensures
        supported_among(entries, n) is Ok <==> readable_among(entries, n),
        supported_among(entries, n) matches Ok(files) ==> (files.contains(path) <==> is_supported(
            path,
        ) && lists_among(entries, n, path)),
    decreases entries, n,
{
    if n > 0 && n <= entries.len() {
        lemma_scan_among(entries, (n - 1) as nat, path);
        match entries[n - 1] {
            Entry::Directory(_, listing) => {
                law_scan_finds_the_supported_files(listing, path);
            },
            _ => {},
        }
        if supported_among(entries, n) is Ok {
            let all = supported_among(entries, n)->Ok_0;
            let before = supported_among(entries, (n - 1) as nat)->Ok_0;
            if before.contains(path) {
                let i = before.index_of(path);
                assert(all[i] == path);
            }
            match entries[n - 1] {
                Entry::File(file) => {
                    if is_supported(file@) {
                        assert(all[before.len() as int] == file@);
                    }
                    if all.contains(path) {
                        let i = all.index_of(path);
                        if i < before.len() {
                            assert(before[i] == path);
                        }
                    }
                },
                Entry::Directory(dir, listing) => {
                    if !named_mdlive(dir@) {
                        let below = supported_in(listing)->Ok_0;
                        if below.contains(path) {
                            let i = below.index_of(path);
                            assert(all[before.len() + i] == path);
                        }
                        if all.contains(path) {
                            let i = all.index_of(path);
                            if i < before.len() {
                                assert(before[i] == path);
                            } else {
                                assert(below[i - before.len()] == path);
                            }
                        }
                    }
                },
                _ => {},
            }
        }
    }
}

/// A scan of a directory finds the supported files below it, at any depth and no
/// others. It fails exactly if something could not be read.
pub proof fn law_scan_finds_the_supported_files(listing: Listing, path: Seq<u8>)
    ensures
        supported_in(listing) is Ok <==> readable(listing),
        supported_in(listing) matches Ok(files) ==> (files.contains(path) <==> is_supported(path)
            && lists(listing, path)),
    decreases listing, 0int,
{
    match listing {
        Listing::Entries(entries) => {
            lemma_scan_among(entries@, entries@.len(), path);
        },
        Listing::Failed(_) => {},
    }
}

/// Whether a directory is listed below a directory, at any depth.
pub open spec fn lists_directory(listing: Listing, path: Seq<u8>) -> bool
    decreases listing, 0int,
{
    match listing {
        Listing::Entries(entries) => lists_directory_among(entries@, entries@.len(), path),
        Listing::Failed(_) => false,
    }
}

/// The same for the first `n` entries of a directory.
pub open spec fn lists_directory_among(entries: Seq<Entry>, n: nat, path: Seq<u8>) -> bool
    decreases entries, n,
{
    if n == 0 || n > entries.len() {
        false
    } else {
        lists_directory_among(entries, (n - 1) as nat, path) || match entries[n - 1] {
            Entry::Directory(dir, listing) => dir@ == path || lists_directory(listing, path),
            _ => false,
        }
    }
}

proof fn lemma_concat_contains(a: Seq<Seq<char>>, b: Seq<Seq<char>>, c: Seq<Seq<char>>, x: Seq<char>)
    ensures
        (a + b + c).contains(x) <==> a.contains(x) || b.contains(x) || c.contains(x),
{
    let all = a + b + c;
    if a.contains(x) {
        assert(all[a.index_of(x)] == x);
    } else if b.contains(x) {
        assert(all[a.len() + b.index_of(x)] == x);
    } else if c.contains(x) {
        assert(all[a.len() + b.len() + c.index_of(x)] == x);
    }
    if all.contains(x) {
        let i = all.index_of(x);
        if i < a.len() {
            assert(a[i] == x);
        } else if i < a.len() + b.len() {
            assert(b[i - a.len()] == x);
        } else {
            assert(c[i - a.len() - b.len()] == x);
        }
    }
}

proof fn lemma_directories_among(root: Seq<u8>, entries: Seq<Entry>, n: nat, name: Seq<char>)
    ensures
        directories_among(root, entries, n).contains(name) <==> exists|path: Seq<u8>| #[trigger]
            lists_directory_among(entries, n, path) && directory_itself(root, path).contains(name),
    decreases entries, n,
{
    if n > 0 && n <= entries.len() {
        let m = (n - 1) as nat;
        let before = directories_among(root, entries, m);
        lemma_directories_among(root, entries, m, name);
        match entries[n - 1] {
            Entry::Directory(dir, listing) => {
                let itself = directory_itself(root, dir@);
                let below = directories_in(root, listing);
                law_scan_lists_the_directories(root, listing, name);
                lemma_concat_contains(before, itself, below, name);
                if before.contains(name) {
                    let path = choose|path: Seq<u8>| #[trigger]
                        lists_directory_among(entries, m, path) && directory_itself(
                            root,
                            path,
                        ).contains(name);
                    assert(lists_directory_among(entries, n, path));
                }
                if itself.contains(name) {
                    assert(lists_directory_among(entries, n, dir@));
                }
                if below.contains(name) {
                    let path = choose|path: Seq<u8>| #[trigger]
                        lists_directory(listing, path) && directory_itself(root, path).contains(
                            name,
                        );
                    assert(lists_directory_among(entries, n, path));
                }
                if exists|path: Seq<u8>| #[trigger]
                    lists_directory_among(entries, n, path) && directory_itself(
                        root,
                        path,
                    ).contains(name) {
                    let path = choose|path: Seq<u8>| #[trigger]
                        lists_directory_among(entries, n, path) && directory_itself(
                            root,
                            path,
                        ).contains(name);
                    if lists_directory_among(entries, m, path) {
                        assert(before.contains(name));
                    } else if dir@ == path {
                        assert(itself.contains(name));
                    } else {
                        assert(lists_directory(listing, path));
                        assert(below.contains(name));
                    }
                }
            },
            _ => {
                if before.contains(name) {
                    let path = choose|path: Seq<u8>| #[trigger]
                        lists_directory_among(entries, m, path) && directory_itself(
                            root,
                            path,
                        ).contains(name);
                    assert(lists_directory_among(entries, n, path));
                }
                if exists|path: Seq<u8>| #[trigger]
                    lists_directory_among(entries, n, path) && directory_itself(
                        root,
                        path,
                    ).contains(name) {
                    let path = choose|path: Seq<u8>| #[trigger]
                        lists_directory_among(entries, n, path) && directory_itself(
                            root,
                            path,
                        ).contains(name);
                    assert(lists_directory_among(entries, m, path));
                }
            },
        }
    }
}

/// A scan for directories finds every one, at any depth, by its path from the
/// base directory, and nothing else.
pub proof fn law_scan_lists_the_directories(root: Seq<u8>, listing: Listing, name: Seq<char>)
    ensures
        directories_in(root, listing).contains(name) <==> exists|path: Seq<u8>| #[trigger]
            lists_directory(listing, path) && directory_itself(root, path).contains(name),
    decreases listing, 0int,
{
    match listing {
        Listing::Entries(entries) => {
            lemma_directories_among(root, entries@, entries@.len(), name);
            if directories_in(root, listing).contains(name) {
                let path = choose|path: Seq<u8>| #[trigger]
                    lists_directory_among(entries@, entries@.len(), path) && directory_itself(
                        root,
                        path,
                    ).contains(name);
                assert(lists_directory(listing, path));
            }
            if exists|path: Seq<u8>| #[trigger]
                lists_directory(listing, path) && directory_itself(root, path).contains(name) {
                let path = choose|path: Seq<u8>| #[trigger]
                    lists_directory(listing, path) && directory_itself(root, path).contains(name);
                assert(lists_directory_among(entries@, entries@.len(), path));
            }
        },
        Listing::Failed(_) => {},
    }
}

/// Whether bytes spell a word of small letters, with each letter large or small.
pub open spec fn spells(bytes: Seq<u8>, word: Seq<char>) -> bool {
    &&& bytes.len() == word.len()
    &&& forall|i: int|
        0 <= i < word.len() ==> (#[trigger] bytes[i]) as int == word[i] as int || bytes[i] as int
            + 32 == word[i] as int
}

proof fn lemma_spells(path: Seq<u8>, ext: Seq<u8>, word: Seq<char>)
    requires
        crate::path::extension(path) == Some(ext),
        is_lower_word(word),
    ensures
        has_extension(path, word) <==> spells(ext, word),
{
    let w = vstd::utf8::encode_utf8(word);
    assert(vstd::utf8::is_ascii_chars(word));
    vstd::utf8::is_ascii_chars_encode_utf8(word);
    assert forall|i: int| 0 <= i < word.len() implies w[i] as int == word[i] as int
        && ascii_lower(w[i]) == w[i] by {
        assert(word[i] as u8 == w[i]);
    }
    if has_extension(path, word) {
        assert forall|i: int| 0 <= i < word.len() implies (#[trigger] ext[i]) as int
            == word[i] as int || ext[i] as int + 32 == word[i] as int by {
            assert(ascii_lower(ext[i]) == ascii_lower(w[i]));
        }
    }
    if spells(ext, word) {
        assert forall|i: int| 0 <= i < ext.len() implies ascii_lower(#[trigger] ext[i])
            == ascii_lower(w[i]) by {
            assert(w[i] as int == word[i] as int);
        }
    }
}

/// The kind of a file is told by its extension, in any case of its letters: which
/// extensions are Markdown, JSON, CSV, YAML, TOML, Mermaid and plain text, and
/// that files with another one, or with none, are of no kind that is served.
pub proof fn law_extension_tells_the_kind(path: Seq<u8>, ext: Seq<u8>)
    ensures
        crate::path::extension(path) == Some(ext) ==> {
            &&& is_markdown(path) <==> spells(ext, "md"@) || spells(ext, "markdown"@)
            &&& is_json(path) <==> spells(ext, "json"@)
            &&& is_csv(path) <==> spells(ext, "csv"@)
            &&& is_yaml(path) <==> spells(ext, "yaml"@) || spells(ext, "yml"@)
            &&& is_toml(path) <==> spells(ext, "toml"@)
            &&& is_mermaid(path) <==> spells(ext, "mmd"@)
            &&& is_text(path) <==> spells(ext, "txt"@)
            &&& is_supported(path) <==> spells(ext, "md"@) || spells(ext, "markdown"@) || spells(
                ext,
                "json"@,
            ) || spells(ext, "csv"@) || spells(ext, "yaml"@) || spells(ext, "yml"@) || spells(
                ext,
                "toml"@,
            ) || spells(ext, "mmd"@) || spells(ext, "txt"@)
        },
        crate::path::extension(path) is None ==> !is_supported(path) && !is_markdown(path)
            && !is_json(path) && !is_csv(path) && !is_yaml(path) && !is_toml(path) && !is_mermaid(
            path,
        ) && !is_text(path),
{
    reveal_extensions();
    if crate::path::extension(path) == Some(ext) {
        lemma_spells(path, ext, "md"@);
        lemma_spells(path, ext, "markdown"@);
        lemma_spells(path, ext, "json"@);
        lemma_spells(path, ext, "csv"@);
        lemma_spells(path, ext, "yaml"@);
        lemma_spells(path, ext, "yml"@);
        lemma_spells(path, ext, "toml"@);
        lemma_spells(path, ext, "mmd"@);
        lemma_spells(path, ext, "txt"@);
    }
}

/// The class that a file is shown under, by its extension.
pub proof fn law_extension_tells_the_class(path: Seq<u8>, ext: Seq<u8>)
    ensures
        crate::path::extension(path) == Some(ext) ==> {
            &&& spells(ext, "md"@) || spells(ext, "markdown"@) ==> class_of(path) == "markdown"@
            &&& spells(ext, "json"@) ==> class_of(path) == "json"@
            &&& spells(ext, "csv"@) ==> class_of(path) == "csv"@
            &&& spells(ext, "yaml"@) || spells(ext, "yml"@) ==> class_of(path) == "yaml"@
            &&& spells(ext, "toml"@) ==> class_of(path) == "toml"@
            &&& spells(ext, "mmd"@) ==> class_of(path) == "mermaid"@
            &&& spells(ext, "txt"@) ==> class_of(path) == "plaintext"@
        },
        !is_supported(path) ==> class_of(path) == "unknown"@,
{
    law_extension_tells_the_kind(path, ext);
    law_class_tells_the_kind(path);
}

/// The extension of a path as text, in ASCII lower case, is a word of small letters
/// exactly if the extension spells that word.
proof fn lemma_lower_is_word(path: Seq<u8>, ext: Seq<u8>, word: Seq<char>)
    requires
        crate::path::extension(path) == Some(ext),
        is_lower_word(word),
        word.len() > 0,
    ensures
        crate::text::ascii_lower_text(extension_text(path)) == word <==> spells(ext, word),
{
    lemma_spells(path, ext, word);
    if spells(ext, word) {
        lemma_extension_text(path, word);
    }
    let text = extension_text(path);
    let low = crate::text::ascii_lower_text(text);
    if low == word {
        assert(vstd::utf8::valid_utf8(ext));
        assert forall|i: int| 0 <= i < text.len() implies (text[i] as int == word[i] as int
            || text[i] as int + 32 == word[i] as int) && (text[i] as int) < 128 by {
            assert(low[i] == word[i]);
        }
        assert(vstd::utf8::is_ascii_chars(text));
        vstd::utf8::is_ascii_chars_encode_utf8(text);
        vstd::utf8::decode_utf8_encode_utf8(ext);
        assert(vstd::utf8::encode_utf8(text) == ext);
        assert forall|i: int| 0 <= i < word.len() implies (#[trigger] ext[i]) as int
            == word[i] as int || ext[i] as int + 32 == word[i] as int by {
            assert(text[i] as u8 == ext[i]);
        }
    }
}

/// Which extensions, in any case of their letters, are those of images, and the
/// media type of each. All else is sent as a stream of bytes.
pub proof fn law_extension_tells_the_image(path: Seq<u8>, ext: Seq<u8>)
    requires
        crate::path::extension(path) == Some(ext),
    ensures
        ({
            let low = crate::text::ascii_lower_text(extension_text(path));
            &&& names_image(low) <==> spells(ext, "png"@) || spells(ext, "jpg"@) || spells(
                ext,
                "jpeg"@,
            ) || spells(ext, "gif"@) || spells(ext, "svg"@) || spells(ext, "webp"@) || spells(
                ext,
                "bmp"@,
            ) || spells(ext, "ico"@)
            &&& spells(ext, "png"@) ==> media_type(low) == "image/png"@
            &&& spells(ext, "jpg"@) || spells(ext, "jpeg"@) ==> media_type(low) == "image/jpeg"@
            &&& spells(ext, "gif"@) ==> media_type(low) == "image/gif"@
            &&& spells(ext, "svg"@) ==> media_type(low) == "image/svg+xml"@
            &&& spells(ext, "webp"@) ==> media_type(low) == "image/webp"@
            &&& spells(ext, "bmp"@) ==> media_type(low) == "image/bmp"@
            &&& spells(ext, "ico"@) ==> media_type(low) == "image/x-icon"@
            &&& !names_image(low) ==> media_type(low) == "application/octet-stream"@
        }),
{
    reveal_strlit("png");
    reveal_strlit("jpg");
    reveal_strlit("jpeg");
    reveal_strlit("gif");
    reveal_strlit("svg");
    reveal_strlit("webp");
    reveal_strlit("bmp");
    reveal_strlit("ico");
    assert("png"@[0] == 'p' && "jpg"@[0] == 'j' && "gif"@[0] == 'g' && "svg"@[0] == 's'
        && "bmp"@[0] == 'b' && "ico"@[0] == 'i' && "webp"@[0] == 'w' && "jpeg"@[0] == 'j');
    assert("png"@.len() == 3 && "jpg"@.len() == 3 && "gif"@.len() == 3 && "svg"@.len() == 3
        && "bmp"@.len() == 3 && "ico"@.len() == 3 && "webp"@.len() == 4 && "jpeg"@.len() == 4);
    lemma_lower_is_word(path, ext, "png"@);
    lemma_lower_is_word(path, ext, "jpg"@);
    lemma_lower_is_word(path, ext, "jpeg"@);
    lemma_lower_is_word(path, ext, "gif"@);
    lemma_lower_is_word(path, ext, "svg"@);
    lemma_lower_is_word(path, ext, "webp"@);
    lemma_lower_is_word(path, ext, "bmp"@);
    lemma_lower_is_word(path, ext, "ico"@);
}

/// A directory named `.mdlive` is the program's own, and so is whatever lies below
/// it; a path without such a component is not.
pub proof fn law_own_directory_is_known_by_its_name(base: Seq<u8>, rest: Seq<u8>, path: Seq<u8>)
    requires
        rest.len() == 0 || rest[0] != crate::path::SLASH,
        !crate::path::starts_with_dot(rest),
    ensures
        ({
            let own = base.push(crate::path::SLASH) + vstd::utf8::encode_utf8(".mdlive"@);
            &&& named_mdlive(own)
            &&& in_mdlive(own)
            &&& in_mdlive(own.push(crate::path::SLASH) + rest)
        }),
        in_mdlive(path) <==> crate::path::components(path).contains(
            vstd::utf8::encode_utf8(".mdlive"@),
        ),
        named_mdlive(path) <==> crate::path::file_name(path) == Some(
            vstd::utf8::encode_utf8(".mdlive"@),
        ),
{
    let name = vstd::utf8::encode_utf8(".mdlive"@);
    reveal_strlit(".mdlive");
    assert(vstd::utf8::is_ascii_chars(".mdlive"@));
    vstd::utf8::is_ascii_chars_encode_utf8(".mdlive"@);
    assert(name.len() == 7);
    assert(!name.contains(crate::path::SLASH)) by {
        assert forall|i: int| 0 <= i < 7 implies name[i] != crate::path::SLASH by {
            assert(".mdlive"@[i] as u8 == name[i]);
        }
    }
    crate::path::law_components_stand_between_separators(base, name);
    crate::path::law_file_name_is_the_last_name(base, name);
    let own = base.push(crate::path::SLASH) + name;
    let all = crate::path::components(own);
    assert(all.last() == name);
    assert(all[all.len() - 1] == name);
    let below = own.push(crate::path::SLASH);
    crate::path::law_components_stand_between_separators(own, name);
    crate::path::law_join_appends_components(below, rest);
    assert(crate::path::join(below, rest) == below + rest);
    let c = crate::path::components(below + rest);
    assert(c[all.len() - 1] == name);
}

proof fn lemma_supported_agree(a: Seq<Entry>, b: Seq<Entry>, n: nat)
    requires
        n <= a.len(),
        n <= b.len(),
        forall|i: int| 0 <= i < n ==> a[i] == b[i],
    ensures
        supported_among(a, n) == supported_among(b, n),
    decreases n,
{
    if n > 0 {
        lemma_supported_agree(a, b, (n - 1) as nat);
    }
}

/// What two scans in a row give: the first error, or the files of both.
pub open spec fn both_found(
    a: Result<Seq<Seq<u8>>, Seq<char>>,
    b: Result<Seq<Seq<u8>>, Seq<char>>,
) -> Result<Seq<Seq<u8>>, Seq<char>> {
    match a {
        Err(error) => Err(error),
        Ok(x) => match b {
            Err(error) => Err(error),
            Ok(y) => Ok(x + y),
        },
    }
}

proof fn lemma_supported_concat(a: Seq<Entry>, b: Seq<Entry>, n: nat)
    requires
        n <= b.len(),
    ensures
        supported_among(a + b, a.len() + n) == both_found(
            supported_among(a, a.len()),
            supported_among(b, n),
        ),
    decreases n,
{
    if n == 0 {
        lemma_supported_agree(a, a + b, a.len());
        if supported_among(a, a.len()) is Ok {
            let x = supported_among(a, a.len())->Ok_0;
            assert(x + Seq::<Seq<u8>>::empty() =~= x);
        }
    } else {
        lemma_supported_concat(a, b, (n - 1) as nat);
        assert((a + b)[a.len() + n - 1] == b[n - 1]);
        if supported_among(a, a.len()) is Ok && supported_among(b, (n - 1) as nat) is Ok {
            let x = supported_among(a, a.len())->Ok_0;
            let y = supported_among(b, (n - 1) as nat)->Ok_0;
            match b[n - 1] {
                Entry::File(path) => {
                    assert((x + y).push(path@) =~= x + y.push(path@));
                },
                Entry::Directory(_, listing) => {
                    if supported_in(listing) is Ok {
                        let z = supported_in(listing)->Ok_0;
                        assert((x + y) + z =~= x + (y + z));
                    }
                },
                _ => {},
            }
        }
    }
}

/// A scan takes the entries of a directory one after another. Of a file it finds
/// the file, if its kind is supported; of a directory what a scan of that finds,
/// whatever it is called, unless it is one of the program's own; and what cannot
/// be read ends it.
pub proof fn law_scan_goes_entry_by_entry(
    all: Vec<Entry>,
    first: Vec<Entry>,
    rest: Vec<Entry>,
    failure: String,
)
    requires
        all@ == first@ + rest@,
    ensures
        supported_in(Listing::Failed(failure)) == Err::<Seq<Seq<u8>>, Seq<char>>(failure@),
        supported_in(Listing::Entries(all)) == both_found(
            supported_in(Listing::Entries(first)),
            supported_in(Listing::Entries(rest)),
        ),
        all@.len() == 0 ==> supported_in(Listing::Entries(all)) == Ok::<Seq<Seq<u8>>, Seq<char>>(
            Seq::empty(),
        ),
        all@.len() == 1 ==> supported_in(Listing::Entries(all)) == (match all@[0] {
            Entry::File(path) => if is_supported(path@) {
                Ok::<Seq<Seq<u8>>, Seq<char>>(seq![path@])
            } else {
                Ok(Seq::empty())
            },
            Entry::Directory(path, below) => if crate::path::file_name(path@) == Some(
                vstd::utf8::encode_utf8(".mdlive"@),
            ) {
                Ok(Seq::empty())
            } else {
                supported_in(below)
            },
            Entry::Other(_) => Ok(Seq::empty()),
            Entry::Failed(error) => Err(error@),
        }),
{
    lemma_supported_concat(first@, rest@, rest@.len());
    if all@.len() == 1 {
        let none = Seq::<Seq<u8>>::empty();
        assert(supported_among(all@, 0) == Ok::<Seq<Seq<u8>>, Seq<char>>(none));
        match all@[0] {
            Entry::File(path) => {
                assert(none.push(path@) =~= seq![path@]);
            },
            Entry::Directory(_, below) => {
                if supported_in(below) is Ok {
                    let z = supported_in(below)->Ok_0;
                    assert(none + z =~= z);
                }
            },
            _ => {},
        }
    }
}

proof fn lemma_directories_agree(root: Seq<u8>, a: Seq<Entry>, b: Seq<Entry>, n: nat)
    requires
        n <= a.len(),
        n <= b.len(),
        forall|i: int| 0 <= i < n ==> a[i] == b[i],
    ensures
        directories_among(root, a, n) == directories_among(root, b, n),
    decreases n,
{
    if n > 0 {
        lemma_directories_agree(root, a, b, (n - 1) as nat);
    }
}

proof fn lemma_directories_concat(root: Seq<u8>, a: Seq<Entry>, b: Seq<Entry>, n: nat)
    requires
        n <= b.len(),
    ensures
        directories_among(root, a + b, a.len() + n) == directories_among(root, a, a.len())
            + directories_among(root, b, n),
    decreases n,
{
    let x = directories_among(root, a, a.len());
    if n == 0 {
        lemma_directories_agree(root, a, a + b, a.len());
        assert(x + Seq::<Seq<char>>::empty() =~= x);
    } else {
        lemma_directories_concat(root, a, b, (n - 1) as nat);
        assert((a + b)[a.len() + n - 1] == b[n - 1]);
        let y = directories_among(root, b, (n - 1) as nat);
        match b[n - 1] {
            Entry::Directory(path, listing) => {
                let d = directory_itself(root, path@);
                let z = directories_in(root, listing);
                assert((x + y) + d + z =~= x + (y + d + z));
            },
            _ => {},
        }
    }
}

/// A scan for directories takes the entries one after another. Of a directory it
/// gives the text of its path below the base, if it lies there, and what a scan of
/// it gives; of anything else it gives nothing, and what cannot be read does not
/// end it.
pub proof fn law_directory_scan_goes_entry_by_entry(
    root: Seq<u8>,
    all: Vec<Entry>,
    first: Vec<Entry>,
    rest: Vec<Entry>,
    error: String,
)
    requires
        all@ == first@ + rest@,
    ensures
        directories_in(root, Listing::Failed(error)) == Seq::<Seq<char>>::empty(),
        directories_in(root, Listing::Entries(all)) == directories_in(
            root,
            Listing::Entries(first),
        ) + directories_in(root, Listing::Entries(rest)),
        all@.len() == 0 ==> directories_in(root, Listing::Entries(all)) == Seq::<Seq<char>>::empty(),
        all@.len() == 1 ==> directories_in(root, Listing::Entries(all)) == (match all@[0] {
            Entry::Directory(path, below) => (match crate::path::strip_prefix(path@, root) {
                Some(relative) => if crate::text::lossy_text(relative).len() > 0 {
                    seq![crate::text::lossy_text(relative)]
                } else {
                    Seq::empty()
                },
                None => Seq::empty(),
            }) + directories_in(root, below),
            _ => Seq::empty(),
        }),
{
    lemma_directories_concat(root, first@, rest@, rest@.len());
    if all@.len() == 1 {
        let none = Seq::<Seq<char>>::empty();
        assert(directories_among(root, all@, 0) == none);
        match all@[0] {
            Entry::Directory(path, below) => {
                let d = directory_itself(root, path@);
                assert(none + d =~= d);
            },
            _ => {},
        }
    }
}

} // verus!
