//! Watches the headset's media collection for new captures.

use vstd::prelude::*;
use vstd::utf8::is_ascii_chars;

use crate::filter::any_case_of_an_image_is_forwarded;
use crate::filter::forwarded_extension;
use crate::filter::images_are_forwarded_under_their_extension;
use crate::filter::is_in_some_case;
use crate::filter::matches_package;
use crate::filter::screenshot_extension;
use crate::text::lower_case_moves_capitals;
use crate::text::occurs_in;
use crate::upload::Found;
use crate::upload::FoundScreenshot;

verus! {

/// Guards against a runaway query if the media collection is unexpectedly large.
pub const MAX_ENTRIES_PER_POLL: usize = 16;

/// One entry of the media collection. A column that holds nothing is `None`.
pub struct MediaEntry {
    /// No two entries share an id.
    pub id: i64,
    /// When the entry was added, in whole seconds since the epoch.
    pub date_added: i64,
    pub display_name: Option<String>,
    pub mime_type: Option<String>,
}

/// What a [`MediaEntry`] holds.
#[verifier::ext_equal]
pub ghost struct Entry {
    pub id: i64,
    pub date_added: i64,
    pub display_name: Option<Seq<char>>,
    pub mime_type: Option<Seq<char>>,
}

/// The characters of a text that may be missing.
pub open spec fn optional_text(text: Option<String>) -> Option<Seq<char>> {
    match text {
        Some(text) => Some(text@),
        None => None,
    }
}

impl View for MediaEntry {
    type V = Entry;

    open spec fn view(&self) -> Entry {
        Entry {
            id: self.id,
            date_added: self.date_added,
            display_name: optional_text(self.display_name),
            mime_type: optional_text(self.mime_type),
        }
    }
}

/// An entry to forward, whose bytes are still to be read.
pub struct Capture {
    pub display_name: String,
    pub extension: String,
    /// Whether the file name carries our own package id. A diagnostic, no condition.
    pub package_match: bool,
}

/// The name and extension of an entry, if it is to be forwarded. An entry without a name never
/// is, and one without a mime type counts as having an empty one.
pub open spec fn captured(entry: Entry) -> Option<(Seq<char>, Seq<char>)> {
    match entry.display_name {
        Some(name) => {
            let mime_type = match entry.mime_type {
                Some(mime_type) => mime_type,
                None => Seq::empty(),
            };
            match forwarded_extension(name, mime_type) {
                Some(extension) => Some((name, extension)),
                None => None,
            }
        },
        None => None,
    }
}

/// Where a watcher stands between two polls.
#[verifier::ext_equal]
pub ghost struct Mark {
    /// The second in which the watcher was made.
    pub start: i64,
    /// The latest second that an entry was dealt with in. Earlier ones are over.
    pub watermark: i64,
    /// The entries of that second that were dealt with.
    pub handled: Set<i64>,
}

impl Mark {
    /// Where a watcher stands that was just made.
    pub open spec fn at(start: i64) -> Mark {
        Mark { start, watermark: start, handled: Set::empty() }
    }

    /// The entry belongs to a second that is over, or was dealt with.
    pub open spec fn is_done(self, entry: Entry) -> bool {
        ||| entry.date_added < self.watermark
        ||| entry.date_added == self.watermark && self.handled.contains(entry.id)
    }

    /// A poll does not consider the entry: it is no later than the start, or done.
    pub open spec fn passes_over(self, entry: Entry) -> bool {
        entry.date_added <= self.start || self.is_done(entry)
    }

    /// The name and extension of an entry that a poll is to read.
    pub open spec fn offers(self, entry: Entry) -> Option<(Seq<char>, Seq<char>)> {
        if self.passes_over(entry) {
            None
        } else {
            captured(entry)
        }
    }

    /// A poll that has seen no entry yet.
    pub open spec fn beginning(self) -> Progress {
        Progress { newest: self.watermark, recent: self.handled, found: Seq::empty() }
    }

    /// Where the watcher stands after a poll that came this far.
    pub open spec fn moved_to(self, progress: Progress) -> Mark {
        Mark { start: self.start, watermark: progress.newest, handled: progress.recent }
    }
}

/// How far a poll has come: the latest second that it has seen, the entries of that second that
/// are dealt with, and the captures it has read.
#[verifier::ext_equal]
pub ghost struct Progress {
    pub newest: i64,
    pub recent: Set<i64>,
    pub found: Seq<Found>,
}

impl Progress {
    /// The poll goes on to another entry.
    pub open spec fn wants_more(self) -> bool {
        self.found.len() < MAX_ENTRIES_PER_POLL
    }

    /// After looking at an entry, in a poll that started from `mark`. The entry is dealt with even
    /// if it is rejected: such a file must not be examined again on every single poll.
    pub open spec fn examining(self, mark: Mark, entry: Entry) -> Progress {
        if mark.passes_over(entry) || entry.date_added < self.newest {
            self
        } else if entry.date_added == self.newest {
            Progress { recent: self.recent.insert(entry.id), ..self }
        } else {
            Progress {
                newest: entry.date_added,
                recent: Set::empty().insert(entry.id),
                ..self
            }
        }
    }

    /// After reading the bytes of a capture; one that cannot be read is skipped.
    pub open spec fn reading(
        self,
        display_name: Seq<char>,
        extension: Seq<char>,
        data: Option<Seq<u8>>,
    ) -> Progress {
        match data {
            Some(data) => Progress {
                found: self.found.push(Found { display_name, extension, data }),
                ..self
            },
            None => self,
        }
    }
}

/// The second that a poll began from, and the latest that it has seen.
struct Span {
    since: i64,
    newest: i64,
}

impl Span {
    #[verifier::type_invariant]
    spec fn does_not_go_back(self) -> bool {
        self.since <= self.newest
    }
}

/// A walk through the entries that came up since the last one.
pub struct MediaPoll {
    start: i64,
    span: Span,
    handled: Vec<i64>,
    recent: Vec<i64>,
    found: Vec<FoundScreenshot>,
    package_name: String,
}

/// The bytes of a capture that may have been unreadable.
pub open spec fn optional_bytes(data: Option<Vec<u8>>) -> Option<Seq<u8>> {
    match data {
        Some(data) => Some(data@),
        None => None,
    }
}

fn holds_id(ids: &Vec<i64>, id: i64) -> (found: bool)
    ensures
        found == ids@.to_set().contains(id),
{
    let mut i: usize = 0;
    while i < ids.len()
        invariant
            i <= ids@.len(),
            forall|j: int| 0 <= j < i ==> ids@[j] != id,
        decreases ids@.len() - i,
    {
        if ids[i] == id {
            assert(ids@.contains(id));
            return true;
        }
        i = i + 1;
    }
    false
}

fn copy_ids(ids: &Vec<i64>) -> (copy: Vec<i64>)
    ensures
        copy@ == ids@,
{
    let mut copy: Vec<i64> = Vec::new();
    let mut i: usize = 0;
    while i < ids.len()
        invariant
            i <= ids@.len(),
            copy@ == ids@.take(i as int),
        decreases ids@.len() - i,
    {
        copy.push(ids[i]);
        i = i + 1;
        assert(copy@ =~= ids@.take(i as int));
    }
    assert(ids@.take(ids@.len() as int) =~= ids@);
    copy
}

proof fn lemma_pushed_id(ids: Seq<i64>, id: i64)
    ensures
        ids.push(id).to_set() == ids.to_set().insert(id),
{
    let pushed = ids.push(id);
    assert forall|other: i64| pushed.contains(other) == (ids.contains(other) || other == id) by {
        if ids.contains(other) {
            let at = choose|i: int| 0 <= i < ids.len() && ids[i] == other;
            assert(pushed[at] == other);
        }
        if other == id {
            assert(pushed[ids.len() as int] == other);
        }
        if pushed.contains(other) && other != id {
            let at = choose|i: int| 0 <= i < pushed.len() && pushed[i] == other;
            assert(ids[at] == other);
        }
    }
    assert(pushed.to_set() =~= ids.to_set().insert(id));
}

impl MediaPoll {
    /// Where the watcher stood when the poll started.
    pub closed spec fn mark(&self) -> Mark {
        Mark { start: self.start, watermark: self.span.since, handled: self.handled@.to_set() }
    }

    pub closed spec fn package(&self) -> Seq<char> {
        self.package_name@
    }

    pub closed spec fn progress(&self) -> Progress {
        Progress {
            newest: self.span.newest,
            recent: self.recent@.to_set(),
            found: self.found@.map_values(|screenshot: FoundScreenshot| screenshot@),
        }
    }

    /// Entries are asked for in the order they were added, and only those added in this second or
    /// later.
    pub fn since(&self) -> (since: i64)
        ensures
            since == self.mark().watermark,
    {
        self.span.since
    }

    /// Whether to go on to another entry.
    pub fn wants_more(&self) -> (more: bool)
        ensures
            more == self.progress().wants_more(),
    {
        self.found.len() < MAX_ENTRIES_PER_POLL
    }

    fn passes_over(&self, entry: &MediaEntry) -> (skip: bool)
        ensures
            skip == self.mark().passes_over(entry@),
    {
        let since: i64 = self.span.since;
        entry.date_added <= self.start || entry.date_added < since || (entry.date_added == since
            && holds_id(&self.handled, entry.id))
    }

    /// Looks at the next entry. Returns the capture to read, if it is to be forwarded.
    ///
    /// An entry is passed over if it is no later than the second in which the watcher was made, if
    /// it is earlier than the watermark, or if an earlier poll dealt with it in that second.
    pub fn examine(&mut self, entry: MediaEntry) -> (capture: Option<Capture>)
        ensures
            final(self).mark() == old(self).mark(),
            final(self).package() == old(self).package(),
            final(self).progress() == old(self).progress().examining(old(self).mark(), entry@),
            match capture {
                Some(capture) => {
                    &&& old(self).mark().offers(entry@) == Some(
                        (capture.display_name@, capture.extension@),
                    )
                    &&& capture.package_match == (old(self).package().len() > 0 && occurs_in(
                        capture.display_name@,
                        old(self).package(),
                    ))
                },
                None => old(self).mark().offers(entry@) is None,
            },
    {
        if self.passes_over(&entry) {
            return None;
        }
        proof {
            use_type_invariant(&self.span);
        }
        if self.span.newest < entry.date_added {
            self.span = Span { since: self.span.since, newest: entry.date_added };
            self.recent = Vec::new();
            self.recent.push(entry.id);
            proof {
                lemma_pushed_id(Seq::empty(), entry.id);
                assert(Seq::<i64>::empty().to_set() =~= Set::<i64>::empty());
            }
        } else if self.span.newest == entry.date_added {
            self.recent.push(entry.id);
            proof {
                lemma_pushed_id(old(self).recent@, entry.id);
            }
        }
        let display_name = match entry.display_name {
            Some(name) => name,
            None => {
                return None;
            },
        };
        let mime_type = match entry.mime_type {
            Some(mime_type) => mime_type,
            None => String::new(),
        };
        match screenshot_extension(display_name.as_str(), mime_type.as_str()) {
            Some(extension) => {
                let package_match = matches_package(
                    display_name.as_str(),
                    self.package_name.as_str(),
                );
                Some(Capture { display_name, extension, package_match })
            },
            None => None,
        }
    }

    /// Takes in the bytes of a capture, or that they could not be read.
    pub fn take(&mut self, capture: Capture, data: Option<Vec<u8>>)
        ensures
            final(self).mark() == old(self).mark(),
            final(self).package() == old(self).package(),
            final(self).progress() == old(self).progress().reading(
                capture.display_name@,
                capture.extension@,
                optional_bytes(data),
            ),
    {
        if let Some(data) = data {
            let screenshot = FoundScreenshot {
                display_name: capture.display_name,
                extension: capture.extension,
                data,
            };
            self.found.push(screenshot);
            assert(self.progress().found =~= old(self).progress().found.push(screenshot@));
        }
    }
}

/// Watches the shared image collection for captures created after it was constructed.
///
/// Only entries newer than the watermark are considered, or as new and not dealt with yet, so a
/// screenshot taken before the stream started is never uploaded and each capture is sent exactly
/// once.
pub struct ScreenshotWatcher {
    start_secs: i64,
    watermark_secs: i64,
    /// What was dealt with in the watermark second. More can come up in that second, and a poll
    /// can reach its limit within it.
    handled: Vec<i64>,
    package_name: String,
}

impl ScreenshotWatcher {
    pub closed spec fn mark(&self) -> Mark {
        Mark {
            start: self.start_secs,
            watermark: self.watermark_secs,
            handled: self.handled@.to_set(),
        }
    }

    pub closed spec fn package(&self) -> Seq<char> {
        self.package_name@
    }

    /// A watcher that starts now. `now_secs` counts whole seconds since the epoch and is `None`
    /// for a clock that is set before it; `package_name` is our own package id, where known.
    pub fn new(now_secs: Option<u64>, package_name: Option<String>) -> (watcher: Self)
        ensures
            watcher.mark() == Mark::at(
                match now_secs {
                    Some(secs) => secs as i64,
                    None => 0,
                },
            ),
            watcher.package() == (match package_name {
                Some(name) => name@,
                None => Seq::empty(),
            }),
    {
        let start_secs: i64 = match now_secs {
            Some(secs) => secs as i64,
            None => 0,
        };
        let package_name = match package_name {
            Some(name) => name,
            None => String::new(),
        };
        let handled: Vec<i64> = Vec::new();
        assert(handled@.to_set() =~= Set::<i64>::empty());
        ScreenshotWatcher { start_secs, watermark_secs: start_secs, handled, package_name }
    }

    /// Starts a walk through the entries that came up since the last one.
    pub fn begin_poll(&self) -> (poll: MediaPoll)
        ensures
            poll.mark() == self.mark(),
            poll.package() == self.package(),
            poll.progress() == self.mark().beginning(),
    {
        let poll = MediaPoll {
            start: self.start_secs,
            span: Span { since: self.watermark_secs, newest: self.watermark_secs },
            handled: copy_ids(&self.handled),
            recent: copy_ids(&self.handled),
            found: Vec::new(),
            package_name: self.package_name.clone(),
        };
        assert(poll.progress().found =~= Seq::<Found>::empty());
        poll
    }

    /// Ends a poll and returns what it found. `outcome` is `None` when the collection could not be
    /// walked to the end, most likely because access to it was denied, and also where there is no
    /// media collection at all: nothing is returned then, and the next poll starts from where this
    /// one did.
    ///
    /// The poll is one that this watcher began, and none has ended in between.
    pub fn poll(&mut self, outcome: Option<MediaPoll>) -> (found: Vec<FoundScreenshot>)
        requires
            outcome matches Some(poll) ==> poll.mark() == old(self).mark(),
        ensures
            final(self).mark().watermark >= old(self).mark().watermark,
            final(self).package() == old(self).package(),
            match outcome {
                Some(poll) => {
                    &&& final(self).mark() == old(self).mark().moved_to(poll.progress())
                    &&& found@.map_values(|screenshot: FoundScreenshot| screenshot@)
                        == poll.progress().found
                },
                None => {
                    &&& final(self).mark() == old(self).mark()
                    &&& found@.len() == 0
                },
            },
    {
        match outcome {
            Some(poll) => {
                proof {
                    use_type_invariant(&poll.span);
                }
                self.watermark_secs = poll.span.newest;
                self.handled = poll.recent;
                poll.found
            },
            None => Vec::new(),
        }
    }
}

/// An entry says what its fields hold, and what may be missing is missing where there is none.
pub proof fn entries_say_what_they_hold(entry: MediaEntry, data: Option<Vec<u8>>)
    ensures
        entry@.id == entry.id,
        entry@.date_added == entry.date_added,
        entry@.display_name is Some <==> entry.display_name is Some,
        entry.display_name is Some ==> entry@.display_name->0 == entry.display_name->0@,
        entry@.mime_type is Some <==> entry.mime_type is Some,
        entry.mime_type is Some ==> entry@.mime_type->0 == entry.mime_type->0@,
        optional_bytes(data) is Some <==> data is Some,
        data is Some ==> optional_bytes(data)->0 == data->0@,
{
}

/// A watcher made in a second asks for entries since that second, has dealt with none, and passes
/// over exactly those no later than it.
pub proof fn watchers_start_at_their_second(start: i64, entry: Entry)
    ensures
        Mark::at(start).start == start,
        Mark::at(start).watermark == start,
        !Mark::at(start).handled.contains(entry.id),
        Mark::at(start).passes_over(entry) <==> entry.date_added <= start,
        entry.date_added > start ==> !Mark::at(start).is_done(entry),
        entry.date_added > start ==> Mark::at(start).offers(entry) == captured(entry),
        Mark::at(start).beginning().found.len() == 0,
{
}

/// A poll begins from where the watcher stands, and the watcher goes on from where a poll ends.
pub proof fn polls_begin_and_end_at_marks(mark: Mark, progress: Progress)
    ensures
        mark.beginning().newest == mark.watermark,
        mark.beginning().recent == mark.handled,
        mark.beginning().found == Seq::<Found>::empty(),
        mark.moved_to(progress).start == mark.start,
        mark.moved_to(progress).watermark == progress.newest,
        mark.moved_to(progress).handled == progress.recent,
        mark.moved_to(mark.beginning()) == mark,
{
}

/// What a poll is offered of an entry. Nothing, if the entry is no later than the start, earlier
/// than the watermark, or in the watermark second and dealt with; nothing if it has no name or no
/// type. Of every other entry whose name ends in a dot and an extension that is `jpeg`, `jpg` or
/// `png` in any case and whose type is `image/jpeg` or `image/png` in any case, exactly that name,
/// with the extension in lower case: whatever stands before the last dot, and however long it is.
/// Of other ASCII extensions and types nothing, and nothing of a name without a dot.
pub proof fn new_captures_are_offered(
    mark: Mark,
    entry: Entry,
    stem: Seq<char>,
    extension: Seq<char>,
    mime_type: Seq<char>,
)
    requires
        forall|i: int| 0 <= i < extension.len() ==> #[trigger] extension[i] != '.',
    ensures
        ({
            let offered = mark.offers(entry);
            let name = stem + seq!['.'] + extension;
            let dealt_with = {
                ||| entry.date_added <= mark.start
                ||| entry.date_added < mark.watermark
                ||| entry.date_added == mark.watermark && mark.handled.contains(entry.id)
            };
            let image = {
                ||| is_in_some_case(
                    mime_type,
                    seq!['i', 'm', 'a', 'g', 'e', '/', 'j', 'p', 'e', 'g'],
                )
                ||| is_in_some_case(mime_type, seq!['i', 'm', 'a', 'g', 'e', '/', 'p', 'n', 'g'])
            };
            &&& dealt_with <==> mark.passes_over(entry)
            &&& dealt_with || entry.display_name is None || entry.mime_type is None
                ==> offered is None
            &&& entry.display_name == Some(extension) ==> offered is None
            &&& !dealt_with && entry.display_name == Some(name) && entry.mime_type == Some(
                mime_type,
            ) ==> {
                &&& is_in_some_case(extension, seq!['j', 'p', 'e', 'g']) && image ==> offered
                    == Some((name, seq!['j', 'p', 'e', 'g']))
                &&& is_in_some_case(extension, seq!['j', 'p', 'g']) && image ==> offered == Some(
                    (name, seq!['j', 'p', 'g']),
                )
                &&& is_in_some_case(extension, seq!['p', 'n', 'g']) && image ==> offered == Some(
                    (name, seq!['p', 'n', 'g']),
                )
                &&& is_ascii_chars(extension) && !is_in_some_case(
                    extension,
                    seq!['j', 'p', 'e', 'g'],
                ) && !is_in_some_case(extension, seq!['j', 'p', 'g']) && !is_in_some_case(
                    extension,
                    seq!['p', 'n', 'g'],
                ) ==> offered is None
                &&& is_ascii_chars(mime_type) && !image ==> offered is None
                &&& match forwarded_extension(name, mime_type) {
                    Some(forward) => offered == Some((name, forward)),
                    None => offered is None,
                }
            }
        }),
{
    any_case_of_an_image_is_forwarded(stem, extension, mime_type);
    images_are_forwarded_under_their_extension(stem, extension, mime_type, extension);
    if let Some(type_of_entry) = entry.mime_type {
        images_are_forwarded_under_their_extension(stem, extension, type_of_entry, extension);
    } else if let Some(display_name) = entry.display_name {
        lemma_no_type_is_no_image(display_name);
        if display_name == extension {
            images_are_forwarded_under_their_extension(stem, extension, Seq::empty(), extension);
        }
    }
}

proof fn lemma_no_type_is_no_image(display_name: Seq<char>)
    ensures
        forwarded_extension(display_name, Seq::empty()) is None,
{
    reveal_strlit("image/jpeg");
    reveal_strlit("image/png");
    lower_case_moves_capitals(Seq::empty(), Seq::empty());
    assert(is_ascii_chars(Seq::<char>::empty()));
}

/// A poll stops at sixteen captures. Looking at an entry finds nothing by itself; it moves the
/// poll on to the second of the entry if that is later, and it deals with the entry in its second.
/// An entry that was dealt with changes nothing. Reading one that can be read adds its screenshot
/// behind those found, and nothing else.
pub proof fn polls_go_on_entry_by_entry(
    mark: Mark,
    progress: Progress,
    entry: Entry,
    id: i64,
    display_name: Seq<char>,
    extension: Seq<char>,
    data: Option<Seq<u8>>,
)
    ensures
        progress.wants_more() <==> progress.found.len() < 16,
        ({
            let examined = progress.examining(mark, entry);
            let dealt_with = {
                ||| entry.date_added <= mark.start
                ||| entry.date_added < mark.watermark
                ||| entry.date_added == mark.watermark && mark.handled.contains(entry.id)
            };
            &&& examined.found == progress.found
            &&& dealt_with ==> examined == progress
            &&& !dealt_with ==> {
                &&& examined.newest >= progress.newest
                &&& examined.newest >= entry.date_added
                &&& examined.newest == progress.newest || examined.newest == entry.date_added
                &&& examined.recent.contains(id) <==> {
                    ||| examined.newest == progress.newest && progress.recent.contains(id)
                    ||| examined.newest == entry.date_added && id == entry.id
                }
            }
        }),
        ({
            let read = progress.reading(display_name, extension, data);
            &&& read.newest == progress.newest
            &&& read.recent == progress.recent
            &&& data is None ==> read.found == progress.found
            &&& data is Some ==> {
                &&& read.found.len() == progress.found.len() + 1
                &&& read.found.drop_last() == progress.found
                &&& read.found.last().display_name == display_name
                &&& read.found.last().extension == extension
                &&& read.found.last().data == data->0
            }
        }),
{
    let read = progress.reading(display_name, extension, data);
    if data is Some {
        assert(read.found.drop_last() =~= progress.found);
    }
}

} // verus!
