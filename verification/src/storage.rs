//! Where received screenshots are stored.

use std::path::PathBuf;

use vstd::prelude::*;
use vstd::string::StringExecFns;
use vstd::utf8::decode_utf8;
use vstd::utf8::decode_utf8_encode_utf8;
use vstd::utf8::decode_utf8_split;
use vstd::utf8::encode_utf8;
use vstd::utf8::encode_utf8_decode_utf8;
use vstd::utf8::encode_utf8_valid_utf8;
use vstd::utf8::is_ascii_chars;
use vstd::utf8::is_ascii_chars_encode_utf8;
use vstd::utf8::is_char_boundary;
use vstd::utf8::is_char_boundary_iff_not_is_continuation_byte;
use vstd::utf8::is_char_boundary_start_end_of_seq;
use vstd::utf8::valid_utf8;
use vstd::utf8::valid_utf8_split;

use crate::assembler::CompletedScreenshot;
use crate::moment::days_follow_each_other;
use crate::moment::lemma_timestamp_shape;
use crate::moment::month_text;
use crate::moment::the_local_clock_is_ahead_by_the_offset;
use crate::moment::timestamp;
use crate::moment::timestamp_text;
use crate::moment::timestamps_read_back;
use crate::moment::LocalTime;
use crate::text::decimal;
use crate::text::decimal_is_injective;
use crate::text::decimal_text;
use crate::text::is_white;
use crate::text::trim;
use crate::text::trimmed;
use crate::text::trimming_takes_off_outer_white_space;

verus! {

/// `std::path::PathBuf`: a directory as the operating system names it, which need not be text. It
/// is carried along and never looked into.
#[verifier::external_type_specification]
#[verifier::external_body]
pub struct ExPathBuf(PathBuf);

/// `PathBuf::clone` gives the same path.
pub assume_specification[ <PathBuf as Clone>::clone ](path: &PathBuf) -> (copy: PathBuf)
    ensures
        copy == *path,
;

/// Where a path starts.
pub enum PathBase {
    /// At a path the user wrote.
    Text(String),
    /// At a directory the system named.
    Directory(PathBuf),
}

/// A path: where it starts, and what is joined to that, one after another.
pub struct ScreenshotPath {
    pub base: PathBase,
    pub segments: Vec<String>,
}

/// What a [`PathBase`] is.
#[verifier::ext_equal]
pub ghost enum Base {
    Text(Seq<char>),
    Directory(PathBuf),
}

/// What a [`ScreenshotPath`] is.
#[verifier::ext_equal]
pub ghost struct Location {
    pub base: Base,
    pub segments: Seq<Seq<char>>,
}

impl View for PathBase {
    type V = Base;

    open spec fn view(&self) -> Base {
        match self {
            PathBase::Text(text) => Base::Text(text@),
            PathBase::Directory(directory) => Base::Directory(*directory),
        }
    }
}

impl View for ScreenshotPath {
    type V = Location;

    open spec fn view(&self) -> Location {
        Location { base: self.base@, segments: self.segments@.map_values(|s: String| s@) }
    }
}

impl PathBase {
    fn copy(&self) -> (copy: Self)
        ensures
            copy@ == self@,
    {
        match self {
            PathBase::Text(text) => PathBase::Text(text.clone()),
            PathBase::Directory(directory) => PathBase::Directory(directory.clone()),
        }
    }
}

impl ScreenshotPath {
    /// This path with one more segment joined to it.
    pub fn join(&self, segment: String) -> (path: Self)
        ensures
            path@ == (Location { segments: self@.segments.push(segment@), ..self@ }),
    {
        let mut segments: Vec<String> = Vec::new();
        let mut i: usize = 0;
        while i < self.segments.len()
            invariant
                i <= self.segments@.len(),
                segments@.len() == i,
                forall|j: int| 0 <= j < i ==> segments@[j]@ == self.segments@[j]@,
            decreases self.segments@.len() - i,
        {
            segments.push(self.segments[i].clone());
            i = i + 1;
        }
        segments.push(segment);
        let path = ScreenshotPath { base: self.base.copy(), segments };
        assert(path@.segments =~= self@.segments.push(segment@));
        path
    }
}

/// The root for received screenshots: the setting where it is not blank, else the `ALVR` folder
/// in the pictures folder, which is `Pictures` in the home directory where the system names none.
pub open spec fn root_location(
    setting: Seq<char>,
    pictures: Option<PathBuf>,
    home: Option<PathBuf>,
) -> Option<Location> {
    if trimmed(setting).len() > 0 {
        Some(Location { base: Base::Text(trimmed(setting)), segments: Seq::empty() })
    } else {
        match pictures {
            Some(pictures) => Some(
                Location { base: Base::Directory(pictures), segments: seq!["ALVR"@] },
            ),
            None => match home {
                Some(home) => Some(
                    Location {
                        base: Base::Directory(home),
                        segments: seq!["Pictures"@, "ALVR"@],
                    },
                ),
                None => None,
            },
        }
    }
}

/// The location of a path that may be missing.
pub open spec fn optional_location(path: Option<ScreenshotPath>) -> Option<Location> {
    match path {
        Some(path) => Some(path@),
        None => None,
    }
}

/// Root directory for received screenshots. `setting` wins when non-empty, otherwise the platform
/// Pictures folder (`FOLDERID_Pictures` on Windows, `XDG_PICTURES_DIR` on Linux), which the caller
/// asks the system for, along with the home directory.
pub fn screenshots_root(
    setting: &str,
    pictures: Option<PathBuf>,
    home: Option<PathBuf>,
) -> (root: Option<ScreenshotPath>)
    ensures
        optional_location(root) == root_location(setting@, pictures, home),
{
    let text = trim(setting);
    if !text.is_empty() {
        let root = ScreenshotPath {
            base: PathBase::Text(text.to_owned()),
            segments: Vec::new(),
        };
        assert(root@.segments =~= Seq::<Seq<char>>::empty());
        return Some(root);
    }
    let pictures = match pictures {
        Some(pictures) => {
            let path = ScreenshotPath {
                base: PathBase::Directory(pictures),
                segments: Vec::new(),
            };
            assert(path@.segments =~= Seq::<Seq<char>>::empty());
            path
        },
        None => match home {
            Some(home) => {
                let path = ScreenshotPath {
                    base: PathBase::Directory(home),
                    segments: Vec::new(),
                };
                assert(path@.segments =~= Seq::<Seq<char>>::empty());
                path.join("Pictures".to_owned())
            },
            None => {
                return None;
            },
        },
    };
    let root = pictures.join("ALVR".to_owned());
    Some(root)
}

/// The first seven bytes of a timestamp, which are its `YYYY-MM`.
pub open spec fn month_of(timestamp: Seq<char>) -> Seq<char> {
    decode_utf8(encode_utf8(timestamp).subrange(0, 7))
}

/// The file name of a screenshot. Suffix 0 stands for none.
pub open spec fn file_name(timestamp: Seq<char>, extension: Seq<char>, suffix: nat) -> Seq<char> {
    if suffix == 0 {
        timestamp + seq!['.'] + extension
    } else {
        timestamp + seq!['_'] + decimal(suffix) + seq!['.'] + extension
    }
}

/// `<root>/YYYY-MM/YYYY-MM-DD_HH-MM-SS.<ext>`, or the same with a suffix behind the timestamp.
pub open spec fn candidate(
    root: Location,
    timestamp: Seq<char>,
    extension: Seq<char>,
    suffix: nat,
) -> Location {
    Location {
        base: root.base,
        segments: root.segments + seq![
            month_of(timestamp),
            file_name(timestamp, extension, suffix),
        ],
    }
}

/// Whether `is_taken`, asked about a path to this location with the disk in state `before`, may
/// give this answer and leave the disk in state `after`.
pub open spec fn answers<D, F: FnMut(D, &ScreenshotPath) -> (D, bool)>(
    is_taken: F,
    before: D,
    location: Location,
    after: D,
    answer: bool,
) -> bool {
    exists|path: ScreenshotPath| #[trigger]
        call_ensures(is_taken, (before, &path), (after, answer)) && path@ == location
}

/// Whether asking about the candidates one after another, each once, may take the disk through
/// these states, where all are taken but the last is answered with `last_is_taken`.
pub open spec fn asks_in_order<D, F: FnMut(D, &ScreenshotPath) -> (D, bool)>(
    is_taken: F,
    root: Location,
    timestamp: Seq<char>,
    extension: Seq<char>,
    states: Seq<D>,
    last_is_taken: bool,
) -> bool {
    forall|n: nat|
        n < states.len() - 1 ==> answers(
            is_taken,
            states[n as int],
            #[trigger] candidate(root, timestamp, extension, n),
            states[n as int + 1],
            n < states.len() - 2 || last_is_taken,
        )
}

/// Whether `path` may be what is chosen, taking the disk through these states: the first candidate
/// that is free, with no question after it, and the plain name should none be free.
pub open spec fn chosen_through<D, F: FnMut(D, &ScreenshotPath) -> (D, bool)>(
    is_taken: F,
    root: Location,
    timestamp: Seq<char>,
    extension: Seq<char>,
    states: Seq<D>,
    path: Location,
) -> bool {
    let asked = states.len() - 1;
    &&& 1 <= asked <= u32::MAX
    &&& {
        ||| {
            &&& asks_in_order(is_taken, root, timestamp, extension, states, false)
            &&& path == candidate(root, timestamp, extension, (asked - 1) as nat)
        }
        ||| {
            &&& asks_in_order(is_taken, root, timestamp, extension, states, true)
            &&& asked == u32::MAX
            &&& path == candidate(root, timestamp, extension, 0)
        }
    }
}

/// Whether `path` may be what is chosen, taking the disk from state `before` to `after`.
pub open spec fn chosen<D, F: FnMut(D, &ScreenshotPath) -> (D, bool)>(
    is_taken: F,
    root: Location,
    timestamp: Seq<char>,
    extension: Seq<char>,
    before: D,
    after: D,
    path: Location,
) -> bool {
    exists|states: Seq<D>|
        {
            &&& states.len() > 0
            &&& states.first() == before
            &&& states.last() == after
            &&& #[trigger] chosen_through(is_taken, root, timestamp, extension, states, path)
        }
}

fn candidate_path(root: &ScreenshotPath, timestamp: &str, extension: &str, suffix: u32) -> (path:
    ScreenshotPath)
    requires
        is_char_boundary(encode_utf8(timestamp@), 7),
    ensures
        path@ == candidate(root@, timestamp@, extension@, suffix as nat),
{
    let month = timestamp.split_at(7).0;
    proof {
        encode_utf8_decode_utf8(month@);
        assert(month@ == month_of(timestamp@));
        reveal_strlit("_");
        reveal_strlit(".");
    }
    let mut name = timestamp.to_owned();
    if suffix > 0 {
        name.append("_");
        name.append(decimal_text(suffix).as_str());
    }
    name.append(".");
    name.append(extension);
    assert(name@ =~= file_name(timestamp@, extension@, suffix as nat));
    let path = root.join(month.to_owned()).join(name);
    assert(path@.segments =~= candidate(
        root@,
        timestamp@,
        extension@,
        suffix as nat,
    ).segments);
    path
}

/// Builds `<root>/YYYY-MM/YYYY-MM-DD_HH-MM-SS.<ext>`, appending `_1`, `_2`... when a file with
/// that name already exists. Timestamps use this PC local time: the file lives here, and headset
/// clocks are routinely set to another timezone.
///
/// `is_taken` is injected so the naming logic can be tested without touching the filesystem. It is
/// handed the disk, and hands it on with its answer.
pub fn build_screenshot_path<D, F: FnMut(D, &ScreenshotPath) -> (D, bool)>(
    root: &ScreenshotPath,
    timestamp: &str,
    extension: &str,
    disk: D,
    is_taken: F,
) -> (chosen_path: (ScreenshotPath, D))
    requires
        is_char_boundary(encode_utf8(timestamp@), 7),
        forall|disk: D, path: &ScreenshotPath| call_requires(is_taken, (disk, path)),
    ensures
        chosen(
            is_taken,
            root@,
            timestamp@,
            extension@,
            disk,
            chosen_path.1,
            chosen_path.0@,
        ),
{
    let ghost mut states: Seq<D> = seq![disk];
    let mut asked = is_taken;
    let mut current = disk;
    let mut suffix: u32 = 0;
    while suffix < u32::MAX
        invariant
            asked == is_taken,
            is_char_boundary(encode_utf8(timestamp@), 7),
            forall|disk: D, path: &ScreenshotPath| call_requires(is_taken, (disk, path)),
            states.len() == suffix + 1,
            states.first() == disk,
            states.last() == current,
            asks_in_order(is_taken, root@, timestamp@, extension@, states, true),
        decreases u32::MAX - suffix,
    {
        // Bursts land in the same second: the headset can write two captures one second apart.
        let path = candidate_path(root, timestamp, extension, suffix);
        let ghost before = current;
        let (after, taken) = asked(current, &path);
        current = after;
        proof {
            assert(answers(is_taken, before, path@, after, taken));
            lemma_one_more_asked(is_taken, root@, timestamp@, extension@, states, after, taken);
            states = states.push(after);
        }
        if !taken {
            assert(chosen_through(is_taken, root@, timestamp@, extension@, states, path@));
            return (path, current);
        }
        suffix = suffix + 1;
    }
    let path = candidate_path(root, timestamp, extension, 0);
    assert(chosen_through(is_taken, root@, timestamp@, extension@, states, path@));
    (path, current)
}

proof fn lemma_one_more_asked<D, F: FnMut(D, &ScreenshotPath) -> (D, bool)>(
    is_taken: F,
    root: Location,
    timestamp: Seq<char>,
    extension: Seq<char>,
    states: Seq<D>,
    after: D,
    answer: bool,
)
    requires
        states.len() > 0,
        asks_in_order(is_taken, root, timestamp, extension, states, true),
        answers(
            is_taken,
            states.last(),
            candidate(root, timestamp, extension, (states.len() - 1) as nat),
            after,
            answer,
        ),
    ensures
        asks_in_order(is_taken, root, timestamp, extension, states.push(after), answer),
{
    let next = states.push(after);
    assert forall|n: nat| n < next.len() - 1 implies answers(
        is_taken,
        next[n as int],
        #[trigger] candidate(root, timestamp, extension, n),
        next[n as int + 1],
        n < next.len() - 2 || answer,
    ) by {
        if n < states.len() - 1 {
            assert(answers(
                is_taken,
                states[n as int],
                candidate(root, timestamp, extension, n),
                states[n as int + 1],
                true,
            ));
        }
    }
}

/// Where to store a screenshot received now: what [`build_screenshot_path`] makes of the current
/// timestamp and the extension. There is no such path where `now` is no point in time.
pub fn screenshot_destination<D, F: FnMut(D, &ScreenshotPath) -> (D, bool)>(
    root: &ScreenshotPath,
    now: &LocalTime,
    screenshot: &CompletedScreenshot,
    disk: D,
    is_taken: F,
) -> (destination: (Option<ScreenshotPath>, D))
    requires
        forall|disk: D, path: &ScreenshotPath| call_requires(is_taken, (disk, path)),
    ensures
        match destination.0 {
            Some(path) => now.valid() && chosen(
                is_taken,
                root@,
                timestamp_text(now.local()),
                screenshot.extension@,
                disk,
                destination.1,
                path@,
            ),
            None => !now.valid() && destination.1 == disk,
        },
{
    match timestamp(now) {
        Some(text) => {
            proof {
                lemma_timestamp_shape(now.local());
                lemma_month_of_ascii(text@);
            }
            let (path, disk) = build_screenshot_path(
                root,
                text.as_str(),
                screenshot.extension.as_str(),
                disk,
                is_taken,
            );
            (Some(path), disk)
        },
        None => (None, disk),
    }
}

proof fn lemma_month_of_ascii(timestamp: Seq<char>)
    requires
        is_ascii_chars(timestamp),
        timestamp.len() >= 7,
    ensures
        is_char_boundary(encode_utf8(timestamp), 7),
        month_of(timestamp) == timestamp.take(7),
{
    let bytes = encode_utf8(timestamp);
    let month = timestamp.take(7);
    encode_utf8_valid_utf8(timestamp);
    is_ascii_chars_encode_utf8(timestamp);
    is_ascii_chars_encode_utf8(month);
    assert(bytes.subrange(0, 7) =~= encode_utf8(month)) by {
        assert forall|i: int| 0 <= i < 7 implies bytes.subrange(0, 7)[i] == encode_utf8(
            month,
        )[i] by {
            assert(month[i] == timestamp[i]);
        }
    }
    encode_utf8_decode_utf8(month);
    if timestamp.len() == 7 {
        is_char_boundary_start_end_of_seq(bytes);
    } else {
        assert(timestamp[7] as u8 == bytes[7]);
        is_char_boundary_iff_not_is_continuation_byte(bytes, 7);
    }
}

/// The folder of a screenshot is the `YYYY-MM` of its timestamp, for the years that take four
/// digits.
pub proof fn screenshots_are_stored_by_month(now: LocalTime)
    requires
        now.valid(),
        0 <= now.local().year <= 9999,
    ensures
        month_of(timestamp_text(now.local())) == month_text(now.local()),
{
    lemma_timestamp_shape(now.local());
    lemma_month_of_ascii(timestamp_text(now.local()));
}

/// Every suffix gives a path of its own.
pub proof fn candidates_differ(
    root: Location,
    timestamp: Seq<char>,
    extension: Seq<char>,
    a: nat,
    b: nat,
)
    requires
        a != b,
    ensures
        candidate(root, timestamp, extension, a) != candidate(root, timestamp, extension, b),
{
    let path_a = candidate(root, timestamp, extension, a);
    let path_b = candidate(root, timestamp, extension, b);
    if path_a == path_b {
        let name_a = file_name(timestamp, extension, a);
        let name_b = file_name(timestamp, extension, b);
        assert(path_a.segments.last() == name_a);
        assert(path_b.segments.last() == name_b);
        let at = timestamp.len() as int;
        assert(name_a[at] == name_b[at]);
        assert(a > 0 && b > 0);
        let width = decimal(a).len() as int;
        assert(name_a.subrange(at + 1, at + 1 + width) =~= decimal(a));
        assert(name_b.subrange(at + 1, at + 1 + width) =~= decimal(b));
        decimal_is_injective(a, b);
    }
}

/// Whether `is_taken` goes by the files that there are; `asked` tells which locations it was asked
/// about so far, as recorded on the disk.
pub open spec fn goes_by<D, F: FnMut(D, &ScreenshotPath) -> (D, bool)>(
    is_taken: F,
    files: Set<Location>,
    asked: spec_fn(D) -> Seq<Location>,
) -> bool {
    forall|before: D, path: ScreenshotPath, after: D, answer: bool| #[trigger]
        call_ensures(is_taken, (before, &path), (after, answer)) ==> {
            &&& answer == files.contains(path@)
            &&& asked(after) == asked(before).push(path@)
        }
}

/// The candidates with the suffixes below `count`, in order.
pub open spec fn candidates(
    root: Location,
    timestamp: Seq<char>,
    extension: Seq<char>,
    count: nat,
) -> Seq<Location> {
    Seq::new(count, |n: int| candidate(root, timestamp, extension, n as nat))
}

/// No file is overwritten: where `is_taken` answers for the files that there are, the path chosen
/// is none of theirs, unless the plain name and every suffix are used up. It is the plain name or
/// the one with the smallest suffix that is free. The candidates up to it are asked about in order
/// and each once, and nothing else is.
pub proof fn chosen_paths_are_free<D, F: FnMut(D, &ScreenshotPath) -> (D, bool)>(
    is_taken: F,
    files: Set<Location>,
    asked: spec_fn(D) -> Seq<Location>,
    root: Location,
    timestamp: Seq<char>,
    extension: Seq<char>,
    before: D,
    after: D,
    path: Location,
)
    requires
        goes_by(is_taken, files, asked),
        asked(before).len() == 0,
        chosen(is_taken, root, timestamp, extension, before, after, path),
    ensures
        asked(after) == candidates(root, timestamp, extension, asked(after).len()),
        0 < asked(after).len() <= u32::MAX,
        forall|suffix: nat|
            suffix < asked(after).len() - 1 ==> files.contains(
                #[trigger] candidate(root, timestamp, extension, suffix),
            ),
        !files.contains(path) ==> path == asked(after).last(),
        files.contains(path) ==> {
            &&& path == candidate(root, timestamp, extension, 0)
            &&& asked(after).len() == u32::MAX
            &&& files.contains(asked(after).last())
        },
{
    let states = choose|states: Seq<D>|
        {
            &&& states.len() > 0
            &&& states.first() == before
            &&& states.last() == after
            &&& #[trigger] chosen_through(is_taken, root, timestamp, extension, states, path)
        };
    let count = (states.len() - 1) as nat;
    let last_is_taken = !asks_in_order(is_taken, root, timestamp, extension, states, false);
    lemma_asked(
        is_taken,
        files,
        asked,
        root,
        timestamp,
        extension,
        states,
        last_is_taken,
        count,
    );
    assert forall|n: nat| n < count implies files.contains(
        #[trigger] candidate(root, timestamp, extension, n),
    ) == (n < count - 1 || last_is_taken) by {
        assert(answers(
            is_taken,
            states[n as int],
            candidate(root, timestamp, extension, n),
            states[n as int + 1],
            n < count - 1 || last_is_taken,
        ));
    }
    assert(asked(after).last() == candidate(root, timestamp, extension, (count - 1) as nat));
    if last_is_taken {
        assert(files.contains(candidate(root, timestamp, extension, 0)));
    }
}

proof fn lemma_asked<D, F: FnMut(D, &ScreenshotPath) -> (D, bool)>(
    is_taken: F,
    files: Set<Location>,
    asked: spec_fn(D) -> Seq<Location>,
    root: Location,
    timestamp: Seq<char>,
    extension: Seq<char>,
    states: Seq<D>,
    last_is_taken: bool,
    n: nat,
)
    requires
        goes_by(is_taken, files, asked),
        asks_in_order(is_taken, root, timestamp, extension, states, last_is_taken),
        n < states.len(),
        asked(states.first()).len() == 0,
    ensures
        asked(states[n as int]) == candidates(root, timestamp, extension, n),
    decreases n,
{
    if n == 0 {
        assert(asked(states[0]) =~= candidates(root, timestamp, extension, 0));
    } else {
        let below = (n - 1) as nat;
        lemma_asked(
            is_taken,
            files,
            asked,
            root,
            timestamp,
            extension,
            states,
            last_is_taken,
            below,
        );
        assert(answers(
            is_taken,
            states[below as int],
            candidate(root, timestamp, extension, below),
            states[n as int],
            below < states.len() - 2 || last_is_taken,
        ));
        assert(candidates(root, timestamp, extension, n) =~= candidates(
            root,
            timestamp,
            extension,
            below,
        ).push(candidate(root, timestamp, extension, below)));
    }
}

/// A setting that is not blank decides the root by itself, and otherwise the root is a folder
/// named `ALVR`.
pub proof fn settings_override_the_pictures_folder(
    setting: Seq<char>,
    pictures: Option<PathBuf>,
    home: Option<PathBuf>,
)
    ensures
        trimmed(setting).len() > 0 ==> root_location(setting, pictures, home) == Some(
            Location { base: Base::Text(trimmed(setting)), segments: Seq::empty() },
        ),
        trimmed(setting).len() == 0 ==> match root_location(setting, pictures, home) {
            Some(root) => root.segments.len() > 0 && root.segments.last() == "ALVR"@,
            None => pictures is None && home is None,
        },
{
}

/// A path says where it starts and what is joined to it, and one that may be missing is missing
/// where there is none.
pub proof fn paths_say_what_they_hold(path: ScreenshotPath, optional: Option<ScreenshotPath>)
    ensures
        path.base matches PathBase::Text(text) ==> path@.base == Base::Text(text@),
        path.base matches PathBase::Directory(directory) ==> path@.base == Base::Directory(
            directory,
        ),
        path@.segments.len() == path.segments@.len(),
        forall|i: int|
            0 <= i < path.segments@.len() ==> #[trigger] path@.segments[i] == path.segments@[i]@,
        optional_location(optional) is Some <==> optional is Some,
        optional is Some ==> optional_location(optional)->0 == optional->0@,
{
}

/// A setting that is not blank is the root as it is written, but for whitespace around it: there
/// is whitespace only before and behind the root, and the root neither begins nor ends with any.
/// In particular one that neither begins nor ends with whitespace is the root unchanged. With a
/// blank setting the root is `ALVR` in the pictures folder, or `Pictures` and `ALVR` in the home
/// directory where there is no such folder, and there is none where neither is known.
pub proof fn settings_are_taken_as_they_are_written(
    setting: Seq<char>,
    pictures: Option<PathBuf>,
    home: Option<PathBuf>,
)
    ensures
        ({
            let root = root_location(setting, pictures, home);
            let blank = forall|i: int| 0 <= i < setting.len() ==> is_white(#[trigger] setting[i]);
            &&& !blank ==> exists|from: int, to: int|
                {
                    &&& 0 <= from < to <= setting.len()
                    &&& forall|i: int| 0 <= i < from ==> is_white(#[trigger] setting[i])
                    &&& forall|i: int| to <= i < setting.len() ==> is_white(#[trigger] setting[i])
                    &&& !is_white(setting[from])
                    &&& !is_white(setting[to - 1])
                    &&& root is Some
                    &&& root->0.base == Base::Text(#[trigger] setting.subrange(from, to))
                    &&& root->0.segments.len() == 0
                }
            &&& setting.len() > 0 && !is_white(setting.first()) && !is_white(setting.last())
                ==> root is Some && root->0.base == Base::Text(setting) && root->0.segments.len()
                == 0
            &&& blank && pictures is Some ==> {
                &&& root is Some
                &&& root->0.base == Base::Directory(pictures->0)
                &&& root->0.segments == seq![seq!['A', 'L', 'V', 'R']]
            }
            &&& blank && pictures is None && home is Some ==> {
                &&& root is Some
                &&& root->0.base == Base::Directory(home->0)
                &&& root->0.segments == seq![
                    seq!['P', 'i', 'c', 't', 'u', 'r', 'e', 's'],
                    seq!['A', 'L', 'V', 'R'],
                ]
            }
            &&& blank && pictures is None && home is None ==> root is None
        }),
{
    trimming_takes_off_outer_white_space(setting);
    let inner = trimmed(setting);
    if inner.len() > 0 {
        let (from, to) = choose|from: int, to: int|
            {
                &&& 0 <= from <= to <= setting.len()
                &&& inner == #[trigger] setting.subrange(from, to)
                &&& forall|i: int| 0 <= i < from ==> is_white(#[trigger] setting[i])
                &&& forall|i: int| to <= i < setting.len() ==> is_white(#[trigger] setting[i])
            };
        assert(inner.first() == setting[from] && inner.last() == setting[to - 1]);
        assert(root_location(setting, pictures, home)->0.base == Base::Text(
            setting.subrange(from, to),
        ));
    } else {
        reveal_strlit("ALVR");
        reveal_strlit("Pictures");
        assert("ALVR"@ =~= seq!['A', 'L', 'V', 'R']);
        assert("Pictures"@ =~= seq!['P', 'i', 'c', 't', 'u', 'r', 'e', 's']);
    }
}

/// Every candidate stands in the root, in a folder named by the first seven bytes of the
/// timestamp, under the timestamp, the suffix if there is one, and the extension.
pub proof fn candidates_stand_in_a_folder_of_the_root(
    root: Location,
    timestamp: Seq<char>,
    extension: Seq<char>,
    suffix: nat,
)
    requires
        is_char_boundary(encode_utf8(timestamp), 7),
    ensures
        ({
            let path = candidate(root, timestamp, extension, suffix);
            let folder = path.segments[root.segments.len() as int];
            &&& path.base == root.base
            &&& path.segments.len() == root.segments.len() + 2
            &&& path.segments.take(root.segments.len() as int) == root.segments
            &&& folder.is_prefix_of(timestamp)
            &&& encode_utf8(folder).len() == 7
            &&& is_ascii_chars(timestamp) ==> folder == timestamp.take(7)
            &&& path.segments.last() == (if suffix == 0 {
                timestamp + seq!['.'] + extension
            } else {
                timestamp + seq!['_'] + decimal(suffix) + seq!['.'] + extension
            })
        }),
{
    let path = candidate(root, timestamp, extension, suffix);
    let bytes = encode_utf8(timestamp);
    let month = bytes.subrange(0, 7);
    encode_utf8_valid_utf8(timestamp);
    lemma_boundary_is_within(bytes, 7);
    valid_utf8_split(bytes, 7);
    decode_utf8_split(bytes, 7);
    encode_utf8_decode_utf8(timestamp);
    decode_utf8_encode_utf8(month);
    assert(path.segments.take(root.segments.len() as int) =~= root.segments);
    if is_ascii_chars(timestamp) {
        is_ascii_chars_encode_utf8(timestamp);
        lemma_month_of_ascii(timestamp);
    }
}

proof fn lemma_boundary_is_within(bytes: Seq<u8>, index: int)
    requires
        valid_utf8(bytes),
        is_char_boundary(bytes, index),
    ensures
        0 <= index <= bytes.len(),
{
}

/// A screenshot received now is stored in the root, in the folder of the year and month that the
/// clock on this PC shows, which are the first seven characters of its timestamp, under the
/// timestamp, with a suffix or without, and the extension. The digits stand for the numbers.
pub proof fn screenshots_land_in_the_folder_of_their_month<
    D,
    F: FnMut(D, &ScreenshotPath) -> (D, bool),
>(
    is_taken: F,
    root: Location,
    now: LocalTime,
    extension: Seq<char>,
    before: D,
    after: D,
    path: Location,
)
    requires
        now.valid(),
        0 <= now.local().year <= 9999,
        chosen(is_taken, root, timestamp_text(now.local()), extension, before, after, path),
    ensures
        path.base == root.base,
        path.segments.len() == root.segments.len() + 2,
        path.segments.take(root.segments.len() as int) == root.segments,
        ({
            let folder = path.segments[root.segments.len() as int];
            let digit_at = |i: int| folder[i] as int - '0' as int;
            &&& folder == timestamp_text(now.local()).take(7)
            &&& folder.len() == 7
            &&& folder[4] == '-'
            &&& digit_at(0) * 1000 + digit_at(1) * 100 + digit_at(2) * 10 + digit_at(3)
                == now.local().year
            &&& digit_at(5) * 10 + digit_at(6) == now.local().month
        }),
        exists|suffix: nat|
            suffix < u32::MAX && path.segments.last() == (if suffix == 0 {
                timestamp_text(now.local()) + seq!['.'] + extension
            } else {
                timestamp_text(now.local()) + seq!['_'] + #[trigger] decimal(suffix) + seq!['.']
                    + extension
            }),
{
    let timestamp = timestamp_text(now.local());
    lemma_timestamp_shape(now.local());
    lemma_month_of_ascii(timestamp);
    the_local_clock_is_ahead_by_the_offset(now);
    days_follow_each_other(now.utc, now.utc);
    timestamps_read_back(now.local());
    let states = choose|states: Seq<D>|
        {
            &&& states.len() > 0
            &&& states.first() == before
            &&& states.last() == after
            &&& #[trigger] chosen_through(is_taken, root, timestamp, extension, states, path)
        };
    let suffix = if path == candidate(root, timestamp, extension, (states.len() - 2) as nat) {
        (states.len() - 2) as nat
    } else {
        0
    };
    assert(path == candidate(root, timestamp, extension, suffix));
    candidates_stand_in_a_folder_of_the_root(root, timestamp, extension, suffix);
    assert(decimal(suffix).len() >= 0);
}

/// Whatever the answers are, and however they change, the candidates are asked about in order and
/// each once, up to the first that is free and none after it. That one is chosen; the plain name is
/// if every one is taken. `asked` tells what was asked so far, and the answers.
pub proof fn asking_stops_at_the_first_free_candidate<
    D,
    F: FnMut(D, &ScreenshotPath) -> (D, bool),
>(
    is_taken: F,
    asked: spec_fn(D) -> Seq<(Location, bool)>,
    root: Location,
    timestamp: Seq<char>,
    extension: Seq<char>,
    before: D,
    after: D,
    path: Location,
)
    requires
        forall|from: D, question: ScreenshotPath, to: D, answer: bool| #[trigger]
            call_ensures(is_taken, (from, &question), (to, answer)) ==> asked(to) == asked(
                from,
            ).push((question@, answer)),
        asked(before).len() == 0,
        chosen(is_taken, root, timestamp, extension, before, after, path),
    ensures
        0 < asked(after).len() <= u32::MAX,
        forall|n: int|
            0 <= n < asked(after).len() ==> (#[trigger] asked(after)[n]).0 == candidate(
                root,
                timestamp,
                extension,
                n as nat,
            ),
        forall|n: int| 0 <= n < asked(after).len() - 1 ==> (#[trigger] asked(after)[n]).1,
        !asked(after).last().1 ==> path == asked(after).last().0,
        asked(after).last().1 ==> asked(after).len() == u32::MAX && path == candidate(
            root,
            timestamp,
            extension,
            0,
        ),
{
    let states = choose|states: Seq<D>|
        {
            &&& states.len() > 0
            &&& states.first() == before
            &&& states.last() == after
            &&& #[trigger] chosen_through(is_taken, root, timestamp, extension, states, path)
        };
    let count = (states.len() - 1) as nat;
    let free = asks_in_order(is_taken, root, timestamp, extension, states, false) && path
        == candidate(root, timestamp, extension, (count - 1) as nat);
    lemma_questions(is_taken, asked, root, timestamp, extension, states, !free, count);
}

proof fn lemma_questions<D, F: FnMut(D, &ScreenshotPath) -> (D, bool)>(
    is_taken: F,
    asked: spec_fn(D) -> Seq<(Location, bool)>,
    root: Location,
    timestamp: Seq<char>,
    extension: Seq<char>,
    states: Seq<D>,
    last_is_taken: bool,
    n: nat,
)
    requires
        forall|from: D, question: ScreenshotPath, to: D, answer: bool| #[trigger]
            call_ensures(is_taken, (from, &question), (to, answer)) ==> asked(to) == asked(
                from,
            ).push((question@, answer)),
        asks_in_order(is_taken, root, timestamp, extension, states, last_is_taken),
        n < states.len(),
        asked(states.first()).len() == 0,
    ensures
        asked(states[n as int]) == Seq::new(
            n,
            |i: int|
                (
                    candidate(root, timestamp, extension, i as nat),
                    i < states.len() - 2 || last_is_taken,
                ),
        ),
    decreases n,
{
    let expected = |k: nat|
        Seq::new(
            k,
            |i: int|
                (
                    candidate(root, timestamp, extension, i as nat),
                    i < states.len() - 2 || last_is_taken,
                ),
        );
    if n == 0 {
        assert(asked(states[0]) =~= expected(0));
    } else {
        let below = (n - 1) as nat;
        lemma_questions(
            is_taken,
            asked,
            root,
            timestamp,
            extension,
            states,
            last_is_taken,
            below,
        );
        assert(answers(
            is_taken,
            states[below as int],
            candidate(root, timestamp, extension, below),
            states[n as int],
            below < states.len() - 2 || last_is_taken,
        ));
        assert(expected(n) =~= expected(below).push(
            (
                candidate(root, timestamp, extension, below),
                below < states.len() - 2 || last_is_taken,
            ),
        ));
    }
}

} // verus!
