//! The check for a newer version of the program.

use vstd::prelude::*;

use crate::json::{parse_json, text_member_or_empty};
#[allow(unused_imports)]
use crate::json::{json_members, member_or_empty};
#[allow(unused_imports)]
use crate::order::views;
#[allow(unused_imports)]
use crate::text::{pieces, u32_value};
use crate::text::{joined, parse_u32, same_text, split_at_char, text_after};

verus! {

/// The numbers among texts, in order; texts that are no numbers are left out.
pub open spec fn numbers(texts: Seq<Seq<char>>) -> Seq<u32>
    decreases texts.len(),
{
    if texts.len() == 0 {
        Seq::empty()
    } else {
        match u32_value(texts.last()) {
            Some(n) => numbers(texts.drop_last()).push(n),
            None => numbers(texts.drop_last()),
        }
    }
}

/// A number at a place, or 0 where there is none.
pub open spec fn nth_or_zero(numbers: Seq<u32>, i: int) -> u32 {
    if i < numbers.len() {
        numbers[i]
    } else {
        0
    }
}

/// The version that a text names: its first three numbers between dots.
pub open spec fn version_of(v: Seq<char>) -> (u32, u32, u32) {
    let found = numbers(pieces(v, '.'));
    (nth_or_zero(found, 0), nth_or_zero(found, 1), nth_or_zero(found, 2))
}

/// Whether the version `a` comes after the version `b`.
pub open spec fn is_newer(a: (u32, u32, u32), b: (u32, u32, u32)) -> bool {
    a.0 > b.0 || a.0 == b.0 && (a.1 > b.1 || a.1 == b.1 && a.2 > b.2)
}

fn number_at(numbers: &Vec<u32>, i: usize) -> (n: u32)
    ensures
        n == nth_or_zero(numbers@, i as int),
{
    if i < numbers.len() {
        numbers[i]
    } else {
        0
    }
}

/// The version that a text names. Parts that are no numbers are passed over,
/// and missing parts are 0.
pub fn parse_version(v: &str) -> (version: (u32, u32, u32))
    ensures
        version == version_of(v@),
{
    let parts = split_at_char(v, '.');
    let mut found: Vec<u32> = Vec::new();
    assert(views(parts@).take(0) =~= Seq::<Seq<char>>::empty());
    for i in 0..parts.len()
        invariant
            found@ == numbers(views(parts@).take(i as int)),
    {
        proof {
            assert(views(parts@).take(i + 1).drop_last() =~= views(parts@).take(i as int));
            assert(views(parts@).take(i + 1).last() == parts@[i as int]@);
        }
        match parse_u32(&parts[i]) {
            Some(n) => {
                found.push(n);
            },
            None => {},
        }
    }
    assert(views(parts@).take(parts@.len() as int) =~= views(parts@));
    (number_at(&found, 0), number_at(&found, 1), number_at(&found, 2))
}

/// Whether the version `a` comes after the version `b`.
pub fn newer_version(a: (u32, u32, u32), b: (u32, u32, u32)) -> (r: bool)
    ensures
        r == is_newer(a, b),
{
    a.0 > b.0 || a.0 == b.0 && (a.1 > b.1 || a.1 == b.1 && a.2 > b.2)
}

/// How serious a message is.
#[derive(Clone, Copy, Debug, PartialEq, Eq, Structural)]
pub enum DialogLevel {
    Info,
    Error,
}

/// A message to the user.
pub struct Dialog {
    pub title: String,
    pub description: String,
    pub level: DialogLevel,
    /// The address to open if the user agrees; where there is none the message
    /// is not a question.
    pub offer: Option<Offer>,
}

/// What the user is asked.
pub struct Offer {
    /// Empty if there is nothing to open.
    pub release_url: String,
}

/// The view of a [`Dialog`].
pub struct DialogView {
    pub title: Seq<char>,
    pub description: Seq<char>,
    pub level: DialogLevel,
    pub offer: Option<Seq<char>>,
}

impl View for Dialog {
    type V = DialogView;

    open spec fn view(&self) -> DialogView {
        DialogView {
            title: self.title@,
            description: self.description@,
            level: self.level,
            offer: match self.offer {
                Some(offer) => Some(offer.release_url@),
                None => None,
            },
        }
    }
}

/// The version that a tag names: without a leading `v`.
pub open spec fn untagged(tag: Seq<char>) -> Seq<char> {
    if "v"@.is_prefix_of(tag) {
        tag.skip("v"@.len() as int)
    } else {
        tag
    }
}

/// The message that a check failed.
pub open spec fn failed_check(description: Seq<char>) -> DialogView {
    DialogView {
        title: "Update Check"@,
        description,
        level: DialogLevel::Error,
        offer: None,
    }
}

/// The message on the latest release.
pub open spec fn release_dialog(current: Seq<char>, tag: Seq<char>, url: Seq<char>) -> DialogView {
    let latest = untagged(tag);
    if is_newer(version_of(latest), version_of(current)) {
        DialogView {
            title: "Update Available"@,
            description: "v"@ + latest + " is available (you have v"@ + current
                + ").\n\nUpdate with:\n  brew upgrade --cask bearded-giant/tap/mdlive-app"@,
            level: DialogLevel::Info,
            offer: Some(url),
        }
    } else {
        DialogView {
            title: "Up to Date"@,
            description: "You're running the latest version (v"@ + current + ")."@,
            level: DialogLevel::Info,
            offer: None,
        }
    }
}

/// The message on the latest release, given the tag and the address of that
/// release.
pub fn compare_release(current: &str, tag: &str, url: String) -> (dialog: Dialog)
    ensures
        dialog@ == release_dialog(current@, tag@, url@),
{
    let latest = match text_after(tag, "v") {
        Some(rest) => rest,
        None => tag.to_owned(),
    };
    if newer_version(parse_version(latest.as_str()), parse_version(current)) {
        let mut description = joined("v", latest.as_str());
        description.append(" is available (you have v");
        description.append(current);
        description.append(
            ").\n\nUpdate with:\n  brew upgrade --cask bearded-giant/tap/mdlive-app",
        );
        Dialog {
            title: "Update Available".to_owned(),
            description,
            level: DialogLevel::Info,
            offer: Some(Offer { release_url: url }),
        }
    } else {
        let mut description = joined("You're running the latest version (v", current);
        description.append(").");
        Dialog {
            title: "Up to Date".to_owned(),
            description,
            level: DialogLevel::Info,
            offer: None,
        }
    }
}

fn check_error(description: &str) -> (dialog: Dialog)
    ensures
        dialog@ == failed_check(description@),
{
    Dialog {
        title: "Update Check".to_owned(),
        description: description.to_owned(),
        level: DialogLevel::Error,
        offer: None,
    }
}

/// The message that a check for updates ends with, given the answer about the
/// latest release, if there was one.
pub fn check_for_updates(current: &str, answer: Option<&[u8]>) -> (dialog: Dialog)
    ensures
        dialog@ == (match answer {
            None => failed_check("Could not reach GitHub."@),
            Some(bytes) => match json_members(bytes@) {
                None => failed_check("Could not parse response."@),
                Some(members) => release_dialog(
                    current@,
                    member_or_empty(members, "tag_name"@),
                    member_or_empty(members, "html_url"@),
                ),
            },
        }),
{
    let bytes = match answer {
        Some(bytes) => bytes,
        None => {
            return check_error("Could not reach GitHub.");
        },
    };
    let value = match parse_json(bytes) {
        Some(value) => value,
        None => {
            return check_error("Could not parse response.");
        },
    };
    let tag = text_member_or_empty(&value, "tag_name");
    let url = text_member_or_empty(&value, "html_url");
    compare_release(current, tag.as_str(), url)
}

/// The address to open once the user has answered.
pub fn address_to_open(dialog: &Dialog, agreed: bool) -> (url: Option<&String>)
    ensures
        match url {
            Some(url) => agreed && dialog@.offer == Some(url@) && url@.len() > 0,
            None => !agreed || dialog@.offer is None || dialog@.offer->0.len() == 0,
        },
{
    match &dialog.offer {
        Some(offer) => {
            proof {
                reveal_strlit("");
                assert(offer.release_url@.len() == 0 ==> offer.release_url@ =~= ""@);
            }
            if agreed && !same_text(offer.release_url.as_str(), "") {
                Some(&offer.release_url)
            } else {
                None
            }
        },
        None => None,
    }
}

/// Versions are in a strict total order: of two, one is newer or they are the
/// same, no version is newer than itself, and what is newer than a newer version
/// is newer.
pub proof fn law_versions_are_ordered(
    a: (u32, u32, u32),
    b: (u32, u32, u32),
    c: (u32, u32, u32),
)
    ensures
        !is_newer(a, a),
        is_newer(a, b) ==> !is_newer(b, a),
        is_newer(a, b) && is_newer(b, c) ==> is_newer(a, c),
        is_newer(a, b) || is_newer(b, a) || a == b,
{
}

proof fn lemma_no_dot(n: nat)
    ensures
        !crate::text::decimal(n).contains('.'),
    decreases n,
{
    if n >= 10 {
        lemma_no_dot(n / 10);
        let d = crate::text::decimal(n);
        let before = crate::text::decimal(n / 10);
        assert forall|i: int| 0 <= i < d.len() implies d[i] != '.' by {
            if i < before.len() {
                assert(before[i] == d[i]);
                assert(before.contains(before[i]));
            }
        }
    }
}

/// A version that is written as three numbers with dots between them is read
/// back as the same version.
pub proof fn law_version_reads_back(major: u32, minor: u32, patch: u32)
    ensures
        version_of(
            crate::text::decimal(major as nat).push('.') + (crate::text::decimal(
                minor as nat,
            ).push('.') + crate::text::decimal(patch as nat)),
        ) == (major, minor, patch),
{
    let a = crate::text::decimal(major as nat);
    let b = crate::text::decimal(minor as nat);
    let c = crate::text::decimal(patch as nat);
    lemma_no_dot(major as nat);
    lemma_no_dot(minor as nat);
    lemma_no_dot(patch as nat);
    crate::text::law_one_piece(a, '.');
    crate::text::law_one_piece(b, '.');
    crate::text::law_one_piece(c, '.');
    crate::text::law_pieces_around_separator(b, c, '.');
    crate::text::law_pieces_around_separator(a, b.push('.') + c, '.');
    crate::text::law_decimal_reads_back(major);
    crate::text::law_decimal_reads_back(minor);
    crate::text::law_decimal_reads_back(patch);
    let parts = pieces(a.push('.') + (b.push('.') + c), '.');
    assert(parts =~= seq![a, b, c]);
    assert(parts.drop_last() =~= seq![a, b]);
    assert(parts.drop_last().drop_last() =~= seq![a]);
    assert(parts.drop_last().drop_last().drop_last() =~= Seq::<Seq<char>>::empty());
    reveal_with_fuel(numbers, 4);
    assert(numbers(parts) =~= seq![major, minor, patch]);
}

/// Whoever runs the version of the latest release is not offered an update,
/// whether or not its tag starts with a `v`.
pub proof fn law_no_update_to_the_same_version(current: Seq<char>, url: Seq<char>)
    requires
        !"v"@.is_prefix_of(current),
    ensures
        release_dialog(current, current, url).offer is None,
        release_dialog(current, "v"@ + current, url).offer is None,
{
    let tag = "v"@ + current;
    assert("v"@ =~= tag.subrange(0, "v"@.len() as int));
    assert(tag.skip("v"@.len() as int) =~= current);
}

/// An update is offered exactly if the latest release is newer.
pub proof fn law_update_is_offered_for_newer_releases(
    current: Seq<char>,
    tag: Seq<char>,
    url: Seq<char>,
)
    ensures
        release_dialog(current, tag, url).offer is Some <==> is_newer(
            version_of(untagged(tag)),
            version_of(current),
        ),
{
}

/// A version with a higher first number is newer, whatever follows it; with the same
/// first number the second decides, and then the third.
pub proof fn law_the_first_difference_makes_a_version_newer(
    a: (u32, u32, u32),
    b: (u32, u32, u32),
)
    ensures
        a.0 > b.0 ==> is_newer(a, b),
        a.0 == b.0 && a.1 > b.1 ==> is_newer(a, b),
        a.0 == b.0 && a.1 == b.1 && a.2 > b.2 ==> is_newer(a, b),
{
}

proof fn lemma_numbers_concat(a: Seq<Seq<char>>, b: Seq<Seq<char>>)
    ensures
        numbers(a + b) == numbers(a) + numbers(b),
    decreases b.len(),
{
    if b.len() == 0 {
        assert(a + b =~= a);
        assert(numbers(a) + numbers(b) =~= numbers(a));
    } else {
        assert((a + b).drop_last() =~= a + b.drop_last());
        lemma_numbers_concat(a, b.drop_last());
        assert(numbers(a + b) =~= numbers(a) + numbers(b));
    }
}

proof fn lemma_numbers_of_one(text: Seq<char>)
    ensures
        u32_value(text) matches Some(n) ==> numbers(seq![text]) == seq![n],
        u32_value(text) is None ==> numbers(seq![text]) == Seq::<u32>::empty(),
{
    assert(seq![text].drop_last() =~= Seq::<Seq<char>>::empty());
    assert(numbers(seq![text].drop_last()) =~= Seq::<u32>::empty());
    assert(u32_value(text) matches Some(n) ==> numbers(seq![text]) =~= seq![n]);
}

/// A part of a version that is no number is passed over, wherever it stands, and what
/// stands behind the third number does not count.
pub proof fn law_parts_that_are_no_numbers_are_passed_over(
    before: Seq<char>,
    part: Seq<char>,
    behind: Seq<char>,
)
    requires
        !part.contains('.'),
        u32_value(part) is None,
    ensures
        version_of(part) == (0u32, 0u32, 0u32),
        version_of(part.push('.') + behind) == version_of(behind),
        version_of(before.push('.') + part) == version_of(before),
        version_of(before.push('.') + (part.push('.') + behind)) == version_of(
            before.push('.') + behind,
        ),
{
    crate::text::law_one_piece(part, '.');
    crate::text::law_pieces_around_separator(part, behind, '.');
    crate::text::law_pieces_around_separator(before, part, '.');
    crate::text::law_pieces_around_separator(before, part.push('.') + behind, '.');
    crate::text::law_pieces_around_separator(before, behind, '.');
    lemma_numbers_of_one(part);
    let none = Seq::<u32>::empty();
    let x = pieces(before, '.');
    let y = pieces(behind, '.');
    lemma_numbers_concat(seq![part], y);
    lemma_numbers_concat(x, seq![part]);
    lemma_numbers_concat(x, seq![part] + y);
    lemma_numbers_concat(x, y);
    assert(none + numbers(y) =~= numbers(y));
    assert(numbers(x) + none =~= numbers(x));
}

/// The numbers of a version count in their order: the first part that is a number is
/// the major version, and the versions of what follows come after it. Missing numbers
/// are 0.
pub proof fn law_numbers_count_in_their_order(part: Seq<char>, n: u32, behind: Seq<char>)
    requires
        !part.contains('.'),
        u32_value(part) == Some(n),
    ensures
        version_of(part) == (n, 0u32, 0u32),
        version_of(part.push('.') + behind) == (n, version_of(behind).0, version_of(behind).1),
{
    crate::text::law_one_piece(part, '.');
    crate::text::law_pieces_around_separator(part, behind, '.');
    lemma_numbers_of_one(part);
    let y = pieces(behind, '.');
    lemma_numbers_concat(seq![part], y);
    assert(numbers(seq![part] + y) == seq![n] + numbers(y));
}

/// A tag names the same version with and without a leading `v`.
pub proof fn law_tag_is_read_without_its_letter(version: Seq<char>)
    ensures
        untagged(seq!['v'] + version) == version,
        version.len() == 0 || version[0] != 'v' ==> untagged(version) == version,
{
    reveal_strlit("v");
    let tag = seq!['v'] + version;
    assert("v"@ =~= tag.subrange(0, 1));
    assert(tag.skip(1) =~= version);
    if "v"@.is_prefix_of(version) {
        assert(version.subrange(0, 1)[0] == 'v');
    }
}

/// The message on a newer release names both versions and offers the address of the
/// release; otherwise the message says that the version is the latest, and offers
/// nothing.
pub proof fn law_message_tells_of_the_release(current: Seq<char>, tag: Seq<char>, url: Seq<char>)
    ensures
        ({
            let dialog = release_dialog(current, tag, url);
            let latest = untagged(tag);
            let newer = is_newer(version_of(latest), version_of(current));
            &&& dialog.level == DialogLevel::Info
            &&& newer ==> dialog.title == "Update Available"@ && dialog.offer == Some(url)
                && dialog.description == "v"@ + latest + " is available (you have v"@ + current
                + ").\n\nUpdate with:\n  brew upgrade --cask bearded-giant/tap/mdlive-app"@
            &&& !newer ==> dialog.title == "Up to Date"@ && dialog.offer is None
                && dialog.description == "You're running the latest version (v"@ + current + ")."@
        }),
{
}

/// A release whose tag is a version of three numbers is offered to whoever runs a
/// version of three numbers exactly if its numbers come later, whether or not the tag
/// starts with a `v`.
pub proof fn law_later_numbers_are_offered(
    latest: (u32, u32, u32),
    running: (u32, u32, u32),
    url: Seq<char>,
)
    ensures
        ({
            let a = crate::text::decimal(latest.0 as nat).push('.') + (crate::text::decimal(
                latest.1 as nat,
            ).push('.') + crate::text::decimal(latest.2 as nat));
            let b = crate::text::decimal(running.0 as nat).push('.') + (crate::text::decimal(
                running.1 as nat,
            ).push('.') + crate::text::decimal(running.2 as nat));
            let later = latest.0 > running.0 || latest.0 == running.0 && (latest.1 > running.1
                || latest.1 == running.1 && latest.2 > running.2);
            &&& release_dialog(b, a, url).offer is Some <==> later
            &&& release_dialog(b, seq!['v'] + a, url).offer is Some <==> later
            &&& later ==> release_dialog(b, a, url).offer == Some(url)
        }),
{
    let a = crate::text::decimal(latest.0 as nat).push('.') + (crate::text::decimal(
        latest.1 as nat,
    ).push('.') + crate::text::decimal(latest.2 as nat));
    law_version_reads_back(latest.0, latest.1, latest.2);
    law_version_reads_back(running.0, running.1, running.2);
    law_tag_is_read_without_its_letter(a);
    crate::text::lemma_decimal(latest.0 as nat);
    assert(a[0] == crate::text::decimal(latest.0 as nat)[0]);
}

/// A check that failed is reported as an error with its reason, and offers nothing.
pub proof fn law_failed_check_is_an_error(reason: Seq<char>)
    ensures
        failed_check(reason) == (DialogView {
            title: "Update Check"@,
            description: reason,
            level: DialogLevel::Error,
            offer: None,
        }),
{
}

/// What is said of a message is what it holds.
pub proof fn law_view_shows_what_is_held(dialog: Dialog)
    ensures
        dialog@.title == dialog.title@,
        dialog@.description == dialog.description@,
        dialog@.level == dialog.level,
        dialog.offer matches Some(offer) ==> dialog@.offer == Some(offer.release_url@),
        dialog.offer is None ==> dialog@.offer is None,
{
}

} // verus!
