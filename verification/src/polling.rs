//! What holds of the captures that successive polls find.

use vstd::prelude::*;

use crate::filter::forwarded_extension;
use crate::upload::Found;
use crate::watcher::captured;
use crate::watcher::Entry;
use crate::watcher::Mark;
use crate::watcher::Progress;
use crate::watcher::MAX_ENTRIES_PER_POLL;

verus! {

/// An entry of the media collection, and what reading it gives.
#[verifier::ext_equal]
pub ghost struct Row {
    pub entry: Entry,
    pub data: Option<Seq<u8>>,
}

/// Whether a row is a capture to forward that can be read.
pub open spec fn is_capture(row: Row) -> bool {
    captured(row.entry) is Some && row.data is Some
}

/// The screenshot that such a row becomes.
pub open spec fn screenshot_of(row: Row) -> Found {
    let (display_name, extension) = captured(row.entry)->0;
    Found { display_name, extension, data: row.data->0 }
}

/// A poll after one more row.
pub open spec fn visit(mark: Mark, progress: Progress, row: Row) -> Progress {
    let examined = progress.examining(mark, row.entry);
    match mark.offers(row.entry) {
        Some((display_name, extension)) => examined.reading(display_name, extension, row.data),
        None => examined,
    }
}

/// A poll at its end: it visits one row after another while it wants more and there are any.
pub open spec fn walk(mark: Mark, progress: Progress, rows: Seq<Row>) -> Progress
    decreases rows.len(),
{
    if rows.len() == 0 || !progress.wants_more() {
        progress
    } else {
        walk(mark, visit(mark, progress, rows.first()), rows.drop_first())
    }
}

/// How many rows a poll visits.
pub open spec fn visited(mark: Mark, progress: Progress, rows: Seq<Row>) -> nat
    decreases rows.len(),
{
    if rows.len() == 0 || !progress.wants_more() {
        0
    } else {
        1 + visited(mark, visit(mark, progress, rows.first()), rows.drop_first())
    }
}

/// The captures among some rows that a poll considers, in order.
pub open spec fn captures(mark: Mark, rows: Seq<Row>) -> Seq<Row>
    decreases rows.len(),
{
    if rows.len() == 0 {
        Seq::empty()
    } else {
        let rest = captures(mark, rows.drop_first());
        if is_capture(rows.first()) && !mark.passes_over(rows.first().entry) {
            seq![rows.first()] + rest
        } else {
            rest
        }
    }
}

/// Whether rows come in the order they were added.
pub open spec fn in_order_of_addition(rows: Seq<Row>) -> bool {
    forall|i: int, j: int|
        0 <= i < j < rows.len() ==> (#[trigger] rows[i]).entry.date_added <= (
        #[trigger] rows[j]).entry.date_added
}

/// A poll finds no more captures than the limit, and it stops short of the last row only there.
pub proof fn polls_are_bounded(mark: Mark, progress: Progress, rows: Seq<Row>)
    requires
        progress.found.len() <= MAX_ENTRIES_PER_POLL,
    ensures
        walk(mark, progress, rows).found.len() <= MAX_ENTRIES_PER_POLL,
        visited(mark, progress, rows) <= rows.len(),
        visited(mark, progress, rows) < rows.len() ==> walk(mark, progress, rows).found.len()
            == MAX_ENTRIES_PER_POLL,
    decreases rows.len(),
{
    if rows.len() > 0 && progress.wants_more() {
        polls_are_bounded(mark, visit(mark, progress, rows.first()), rows.drop_first());
    }
}

/// A poll finds exactly the captures that it visits and does not pass over, in order.
pub proof fn polls_find_the_captures_they_visit(mark: Mark, progress: Progress, rows: Seq<Row>)
    ensures
        visited(mark, progress, rows) <= rows.len(),
        walk(mark, progress, rows).found == progress.found + captures(
            mark,
            rows.take(visited(mark, progress, rows) as int),
        ).map_values(|row: Row| screenshot_of(row)),
    decreases rows.len(),
{
    let count = visited(mark, progress, rows) as int;
    let found = captures(mark, rows.take(count)).map_values(|row: Row| screenshot_of(row));
    if rows.len() > 0 && progress.wants_more() {
        let next = visit(mark, progress, rows.first());
        let rest = rows.drop_first();
        polls_find_the_captures_they_visit(mark, next, rest);
        assert(rows.take(count).drop_first() =~= rest.take(count - 1));
        assert(rows.take(count).first() == rows.first());
        assert(walk(mark, progress, rows).found =~= progress.found + found);
    } else {
        assert(rows.take(0) =~= Seq::<Row>::empty());
        assert(walk(mark, progress, rows).found =~= progress.found + found);
    }
}

/// Whether no two of the rows share an id.
pub open spec fn shows_ids_once(rows: Seq<Row>) -> bool {
    forall|i: int, j: int|
        0 <= i < j < rows.len() ==> (#[trigger] rows[i]).entry.id != (#[trigger] rows[j]).entry.id
}

proof fn lemma_captures(mark: Mark, rows: Seq<Row>)
    ensures
        shows_ids_once(rows) ==> shows_ids_once(captures(mark, rows)),
        forall|row: Row| #[trigger]
            captures(mark, rows).contains(row) <==> rows.contains(row) && is_capture(row)
                && !mark.passes_over(row.entry),
    decreases rows.len(),
{
    let all = captures(mark, rows);
    if rows.len() > 0 {
        let first = rows.first();
        let tail = rows.drop_first();
        let rest = captures(mark, tail);
        lemma_captures(mark, tail);
        assert forall|row: Row| rows.contains(row) == (row == first || tail.contains(row)) by {
            if rows.contains(row) && row != first {
                let at = choose|i: int| 0 <= i < rows.len() && rows[i] == row;
                assert(tail[at - 1] == row);
            }
            if tail.contains(row) {
                let at = choose|i: int| 0 <= i < tail.len() && tail[i] == row;
                assert(rows[at + 1] == row);
            }
            assert(rows[0] == first);
        }
        if is_capture(first) && !mark.passes_over(first.entry) {
            assert forall|row: Row| all.contains(row) == (row == first || rest.contains(row)) by {
                if all.contains(row) && row != first {
                    let at = choose|i: int| 0 <= i < all.len() && all[i] == row;
                    assert(rest[at - 1] == row);
                }
                if rest.contains(row) {
                    let at = choose|i: int| 0 <= i < rest.len() && rest[i] == row;
                    assert(all[at + 1] == row);
                }
                assert(all[0] == first);
            }
        }
        if shows_ids_once(rows) {
            assert forall|i: int, j: int| 0 <= i < j < tail.len() implies (#[trigger]
            tail[i]).entry.id != (#[trigger] tail[j]).entry.id by {
                assert(tail[i] == rows[i + 1] && tail[j] == rows[j + 1]);
            }
            if is_capture(first) && !mark.passes_over(first.entry) {
                assert forall|i: int, j: int| 0 <= i < j < all.len() implies (#[trigger]
                all[i]).entry.id != (#[trigger] all[j]).entry.id by {
                    assert(all[j] == rest[j - 1]);
                    if i > 0 {
                        assert(all[i] == rest[i - 1]);
                    } else {
                        assert(rest.contains(all[j]));
                        let at = choose|n: int| 0 <= n < tail.len() && tail[n] == all[j];
                        assert(rows[at + 1] == all[j] && rows[0] == first);
                    }
                }
            }
        }
    }
}

/// What a poll leaves behind, whatever rows it is shown and in whatever order: it does not fall
/// back, and it has dealt with what it visited. What it remembers are ids that it was shown.
proof fn lemma_walk(mark: Mark, progress: Progress, rows: Seq<Row>)
    ensures
        ({
            let count = visited(mark, progress, rows);
            let end = walk(mark, progress, rows);
            &&& count <= rows.len()
            &&& end.newest >= progress.newest
            &&& end.newest == progress.newest ==> progress.recent.subset_of(end.recent)
            &&& forall|i: int|
                0 <= i < count && !mark.passes_over((#[trigger] rows[i]).entry)
                    ==> rows[i].entry.date_added < end.newest || (rows[i].entry.date_added
                    == end.newest && end.recent.contains(rows[i].entry.id))
            &&& forall|id: i64| #[trigger]
                end.recent.contains(id) ==> (end.newest == progress.newest
                    && progress.recent.contains(id)) || exists|i: int|
                    0 <= i < count && (#[trigger] rows[i]).entry.id == id
            &&& end.newest == progress.newest || exists|i: int|
                0 <= i < count && (#[trigger] rows[i]).entry.date_added == end.newest
        }),
    decreases rows.len(),
{
    if rows.len() > 0 && progress.wants_more() {
        let next = visit(mark, progress, rows.first());
        let rest = rows.drop_first();
        lemma_walk(mark, next, rest);
        let count = visited(mark, progress, rows);
        let end = walk(mark, progress, rows);
        assert forall|i: int|
            0 <= i < count && !mark.passes_over((#[trigger] rows[i]).entry) implies
            rows[i].entry.date_added < end.newest || (rows[i].entry.date_added == end.newest
            && end.recent.contains(rows[i].entry.id)) by {
            if i > 0 {
                assert(rows[i] == rest[i - 1]);
            }
        }
        assert forall|id: i64| #[trigger] end.recent.contains(id) implies (end.newest
            == progress.newest && progress.recent.contains(id)) || exists|i: int|
            0 <= i < count && (#[trigger] rows[i]).entry.id == id by {
            if end.newest == next.newest && next.recent.contains(id) {
                if !(end.newest == progress.newest && progress.recent.contains(id)) {
                    assert(rows[0].entry.id == id);
                }
            } else {
                let at = choose|i: int| 0 <= i < count - 1 && (#[trigger] rest[i]).entry.id == id;
                assert(rows[at + 1] == rest[at]);
            }
        }
        if end.newest != progress.newest {
            if end.newest == next.newest {
                assert(rows[0].entry.date_added == end.newest);
            } else {
                let at = choose|i: int|
                    0 <= i < count - 1 && (#[trigger] rest[i]).entry.date_added == end.newest;
                assert(rows[at + 1] == rest[at]);
            }
        }
    }
}

/// Where the watcher stands after a poll that was shown these rows.
pub open spec fn mark_after(mark: Mark, rows: Seq<Row>) -> Mark {
    mark.moved_to(walk(mark, mark.beginning(), rows))
}

/// What is done stays done, whatever rows a poll is shown and in whatever order, and the watermark
/// never goes back.
pub proof fn what_is_done_stays_done(mark: Mark, rows: Seq<Row>, entry: Entry)
    ensures
        mark_after(mark, rows).start == mark.start,
        mark_after(mark, rows).watermark >= mark.watermark,
        mark.is_done(entry) ==> mark_after(mark, rows).is_done(entry),
        mark.passes_over(entry) ==> mark_after(mark, rows).passes_over(entry),
{
    lemma_walk(mark, mark.beginning(), rows);
}

/// The next poll goes on where this one stopped, even in the middle of a second: a row later than
/// the start is done with after a poll exactly if it was before or the poll visited it.
pub proof fn a_poll_is_done_with_what_it_visits(mark: Mark, rows: Seq<Row>, at: int)
    requires
        in_order_of_addition(rows),
        shows_ids_once(rows),
        0 <= at < rows.len(),
        rows[at].entry.date_added > mark.start,
    ensures
        mark_after(mark, rows).is_done(rows[at].entry) <==> mark.is_done(rows[at].entry) || at
            < visited(mark, mark.beginning(), rows),
{
    let begin = mark.beginning();
    let count = visited(mark, begin, rows) as int;
    let end = walk(mark, begin, rows);
    lemma_walk(mark, begin, rows);
    let entry = rows[at].entry;
    if at >= count && !mark.is_done(entry) {
        if end.newest != begin.newest {
            let last = choose|i: int|
                0 <= i < count && (#[trigger] rows[i]).entry.date_added == end.newest;
            assert(rows[last].entry.date_added <= rows[at].entry.date_added);
        }
        if end.recent.contains(entry.id) && !(end.newest == begin.newest && begin.recent.contains(
            entry.id,
        )) {
            let twin = choose|i: int| 0 <= i < count && (#[trigger] rows[i]).entry.id == entry.id;
            assert(rows[twin].entry.id != rows[at].entry.id);
        }
    }
}

/// Where a watcher stands before poll `k`, if it was made in second `start` and the polls, each
/// successful, are shown these rows.
pub open spec fn mark_before(start: i64, polls: Seq<Seq<Row>>, k: nat) -> Mark
    decreases k,
{
    if k == 0 {
        Mark::at(start)
    } else {
        mark_after(mark_before(start, polls, (k - 1) as nat), polls[k - 1])
    }
}

/// What poll `k` returns.
pub open spec fn result_of(start: i64, polls: Seq<Seq<Row>>, k: nat) -> Seq<Found> {
    let mark = mark_before(start, polls, k);
    walk(mark, mark.beginning(), polls[k as int]).found
}

/// The rows that poll `k` returns the screenshots of.
pub open spec fn rows_found(start: i64, polls: Seq<Seq<Row>>, k: nat) -> Seq<Row> {
    let mark = mark_before(start, polls, k);
    let rows = polls[k as int];
    captures(mark, rows.take(visited(mark, mark.beginning(), rows) as int))
}

/// Whether position `i` of what poll `k` returns is this row.
pub open spec fn is_found_at(
    start: i64,
    polls: Seq<Seq<Row>>,
    row: Row,
    k: nat,
    i: int,
) -> bool {
    &&& k < polls.len()
    &&& 0 <= i < rows_found(start, polls, k).len()
    &&& rows_found(start, polls, k)[i] == row
}

/// Whether no poll is shown an id twice, and an id keeps the date that it was added at. Rows may
/// come up, change otherwise and go at any time.
pub open spec fn ids_keep_their_dates(polls: Seq<Seq<Row>>, date: spec_fn(i64) -> i64) -> bool {
    &&& forall|k: int| 0 <= k < polls.len() ==> shows_ids_once(#[trigger] polls[k])
    &&& forall|k: int, i: int|
        0 <= k < polls.len() && 0 <= i < polls[k].len() ==> (
        #[trigger] polls[k][i]).entry.date_added == date(polls[k][i].entry.id)
}

proof fn lemma_start(start: i64, polls: Seq<Seq<Row>>, k: nat)
    ensures
        mark_before(start, polls, k).start == start,
    decreases k,
{
    if k > 0 {
        lemma_start(start, polls, (k - 1) as nat);
    }
}

proof fn lemma_handled_was_shown(start: i64, polls: Seq<Seq<Row>>, k: nat, id: i64)
    requires
        k <= polls.len(),
        mark_before(start, polls, k).handled.contains(id),
    ensures
        exists|j: int, i: int|
            0 <= j < k && 0 <= i < polls[j].len() && (#[trigger] polls[j][i]).entry.id == id,
    decreases k,
{
    if k > 0 {
        let before = (k - 1) as nat;
        let mark = mark_before(start, polls, before);
        let rows = polls[k - 1];
        let end = walk(mark, mark.beginning(), rows);
        lemma_walk(mark, mark.beginning(), rows);
        assert(end.recent.contains(id));
        if mark.handled.contains(id) {
            lemma_handled_was_shown(start, polls, before, id);
        } else {
            let at = choose|i: int|
                0 <= i < visited(mark, mark.beginning(), rows) && (#[trigger] rows[i]).entry.id
                    == id;
            assert(polls[k - 1][at].entry.id == id);
        }
    }
}

proof fn lemma_found_rows(start: i64, polls: Seq<Seq<Row>>, k: nat)
    requires
        k < polls.len(),
    ensures
        shows_ids_once(polls[k as int]) ==> shows_ids_once(rows_found(start, polls, k)),
        forall|row: Row| #[trigger]
            rows_found(start, polls, k).contains(row) ==> {
                &&& polls[k as int].contains(row)
                &&& is_capture(row)
                &&& !mark_before(start, polls, k).passes_over(row.entry)
                &&& mark_before(start, polls, k + 1).is_done(row.entry)
            },
        forall|i: int|
            0 <= i < visited(
                mark_before(start, polls, k),
                mark_before(start, polls, k).beginning(),
                polls[k as int],
            ) && is_capture(#[trigger] polls[k as int][i]) && !mark_before(
                start,
                polls,
                k,
            ).passes_over(polls[k as int][i].entry) ==> rows_found(start, polls, k).contains(
                polls[k as int][i],
            ),
{
    let mark = mark_before(start, polls, k);
    let rows = polls[k as int];
    let count = visited(mark, mark.beginning(), rows) as int;
    lemma_walk(mark, mark.beginning(), rows);
    let seen = rows.take(count);
    lemma_captures(mark, seen);
    if shows_ids_once(rows) {
        assert forall|i: int, j: int| 0 <= i < j < seen.len() implies (#[trigger]
        seen[i]).entry.id != (#[trigger] seen[j]).entry.id by {
            assert(rows[i].entry.id != rows[j].entry.id);
        }
    }
    assert forall|row: Row| #[trigger] rows_found(start, polls, k).contains(row) implies {
        &&& rows.contains(row)
        &&& mark_before(start, polls, k + 1).is_done(row.entry)
    } by {
        let at = choose|i: int| 0 <= i < seen.len() && seen[i] == row;
        assert(rows[at] == row);
    }
    assert forall|i: int|
        0 <= i < count && is_capture(#[trigger] rows[i]) && !mark.passes_over(
            rows[i].entry,
        ) implies rows_found(start, polls, k).contains(rows[i]) by {
        assert(seen[i] == rows[i]);
        assert(seen.contains(rows[i]));
    }
}

proof fn lemma_stays_done(start: i64, polls: Seq<Seq<Row>>, entry: Entry, from: nat, to: nat)
    requires
        from <= to,
        mark_before(start, polls, from).is_done(entry),
    ensures
        mark_before(start, polls, to).is_done(entry),
    decreases to,
{
    if from < to {
        let before = (to - 1) as nat;
        lemma_stays_done(start, polls, entry, from, before);
        what_is_done_stays_done(mark_before(start, polls, before), polls[to - 1], entry);
    }
}

/// Each poll returns the screenshots of captures that it is shown, and one taken before the stream
/// started is never among them.
pub proof fn old_captures_are_never_found(start: i64, polls: Seq<Seq<Row>>, k: nat, i: int)
    requires
        k < polls.len(),
        0 <= i < result_of(start, polls, k).len(),
    ensures
        result_of(start, polls, k).len() == rows_found(start, polls, k).len(),
        result_of(start, polls, k)[i] == screenshot_of(rows_found(start, polls, k)[i]),
        polls[k as int].contains(rows_found(start, polls, k)[i]),
        is_capture(rows_found(start, polls, k)[i]),
        rows_found(start, polls, k)[i].entry.date_added > start,
{
    let mark = mark_before(start, polls, k);
    polls_find_the_captures_they_visit(mark, mark.beginning(), polls[k as int]);
    lemma_found_rows(start, polls, k);
    lemma_start(start, polls, k);
    assert(rows_found(start, polls, k).contains(rows_found(start, polls, k)[i]));
}

/// No capture is found twice: what the polls return at two places has two different ids. Nothing
/// is asked of the order of the rows, and rows may come up, change and go.
pub proof fn no_capture_is_found_twice(
    start: i64,
    polls: Seq<Seq<Row>>,
    date: spec_fn(i64) -> i64,
    a: Row,
    b: Row,
    j: nat,
    at_j: int,
    k: nat,
    at_k: int,
)
    requires
        ids_keep_their_dates(polls, date),
        is_found_at(start, polls, a, j, at_j),
        is_found_at(start, polls, b, k, at_k),
        a.entry.id == b.entry.id,
    ensures
        j == k,
        at_j == at_k,
        a == b,
        a.entry.date_added > start,
{
    lemma_found_rows(start, polls, j);
    lemma_found_rows(start, polls, k);
    lemma_start(start, polls, j);
    assert(rows_found(start, polls, j).contains(a));
    assert(rows_found(start, polls, k).contains(b));
    let i = choose|i: int| 0 <= i < polls[j as int].len() && polls[j as int][i] == a;
    assert(polls[j as int][i].entry.date_added == date(a.entry.id));
    let i = choose|i: int| 0 <= i < polls[k as int].len() && polls[k as int][i] == b;
    assert(polls[k as int][i].entry.date_added == date(b.entry.id));
    if j < k {
        lemma_stays_done(start, polls, a.entry, j + 1, k);
    } else if k < j {
        lemma_stays_done(start, polls, b.entry, k + 1, j);
    } else {
        let found = rows_found(start, polls, k);
        if at_j < at_k {
            assert(found[at_j].entry.id != found[at_k].entry.id);
        } else if at_k < at_j {
            assert(found[at_k].entry.id != found[at_j].entry.id);
        }
    }
}

/// Whether a row comes up in poll `first` and stays until it is done with: its id was not shown
/// before, it is dated no earlier than the watermark then, and the polls from there on are shown
/// it, among rows in the order of addition, while it is not done with.
pub open spec fn stays_from(start: i64, polls: Seq<Seq<Row>>, row: Row, first: nat) -> bool {
    &&& first < polls.len()
    &&& forall|k: int, i: int|
        0 <= k < first && 0 <= i < polls[k].len() ==> (#[trigger] polls[k][i]).entry.id
            != row.entry.id
    &&& row.entry.date_added >= mark_before(start, polls, first).watermark
    &&& forall|k: nat|
        first <= k < polls.len() && !(#[trigger] mark_before(start, polls, k)).is_done(row.entry)
            ==> in_order_of_addition(polls[k as int]) && polls[k as int].contains(row)
}

proof fn lemma_not_done_until_found(
    start: i64,
    polls: Seq<Seq<Row>>,
    row: Row,
    first: nat,
    k: nat,
)
    requires
        stays_from(start, polls, row, first),
        forall|n: int| 0 <= n < polls.len() ==> shows_ids_once(#[trigger] polls[n]),
        row.entry.date_added > start,
        is_capture(row),
        first <= k <= polls.len(),
        forall|n: nat| n < k ==> !(#[trigger] rows_found(start, polls, n)).contains(row),
    ensures
        !mark_before(start, polls, k).is_done(row.entry),
    decreases k,
{
    if k == first {
        if mark_before(start, polls, k).handled.contains(row.entry.id) {
            lemma_handled_was_shown(start, polls, k, row.entry.id);
            let (j, i) = choose|j: int, i: int|
                0 <= j < k && 0 <= i < polls[j].len() && (#[trigger] polls[j][i]).entry.id
                    == row.entry.id;
            assert(polls[j][i].entry.id != row.entry.id);
        }
    } else {
        let before = (k - 1) as nat;
        lemma_not_done_until_found(start, polls, row, first, before);
        let mark = mark_before(start, polls, before);
        let rows = polls[before as int];
        lemma_start(start, polls, before);
        lemma_found_rows(start, polls, before);
        assert(!rows_found(start, polls, before).contains(row));
        assert(rows.contains(row));
        let at = choose|i: int| 0 <= i < rows.len() && rows[i] == row;
        assert(shows_ids_once(polls[before as int]));
        a_poll_is_done_with_what_it_visits(mark, rows, at);
    }
}

/// Each capture is sent exactly once: when a poll returns nothing, a capture later than the start
/// that came up and stayed until it was done with has been found by one of the polls, at one place
/// of what it returned and at no other. Whatever else is in the collection may change or go.
pub proof fn each_capture_is_found_exactly_once(
    start: i64,
    polls: Seq<Seq<Row>>,
    date: spec_fn(i64) -> i64,
    row: Row,
    first: nat,
)
    requires
        ids_keep_their_dates(polls, date),
        stays_from(start, polls, row, first),
        row.entry.date_added > start,
        is_capture(row),
        result_of(start, polls, (polls.len() - 1) as nat).len() == 0,
    ensures
        exists|k: nat, i: int| is_found_at(start, polls, row, k, i),
        forall|k: nat, i: int| #[trigger]
            is_found_at(start, polls, row, k, i) ==> {
                &&& i < result_of(start, polls, k).len()
                &&& result_of(start, polls, k)[i] == screenshot_of(row)
            },
        forall|j: nat, at_j: int, k: nat, at_k: int, other: Row|
            #![trigger
                is_found_at(start, polls, row, j, at_j),
                is_found_at(start, polls, other, k, at_k)
            ]
            is_found_at(start, polls, row, j, at_j) && is_found_at(start, polls, other, k, at_k)
                && other.entry.id == row.entry.id ==> j == k && at_j == at_k,
{
    let last = (polls.len() - 1) as nat;
    if forall|n: nat| n < polls.len() ==> !(#[trigger] rows_found(start, polls, n)).contains(row) {
        lemma_not_done_until_found(start, polls, row, first, last);
        let mark = mark_before(start, polls, last);
        let rows = polls[last as int];
        lemma_start(start, polls, last);
        polls_are_bounded(mark, mark.beginning(), rows);
        lemma_found_rows(start, polls, last);
        assert(rows.contains(row));
        let at = choose|i: int| 0 <= i < rows.len() && rows[i] == row;
        assert(rows_found(start, polls, last).contains(rows[at]));
    }
    let k = choose|n: nat|
        n < polls.len() && (#[trigger] rows_found(start, polls, n)).contains(row);
    let found = rows_found(start, polls, k);
    let i = choose|i: int| 0 <= i < found.len() && found[i] == row;
    assert(is_found_at(start, polls, row, k, i));
    assert forall|k: nat, i: int| #[trigger] is_found_at(start, polls, row, k, i) implies {
        &&& i < result_of(start, polls, k).len()
        &&& result_of(start, polls, k)[i] == screenshot_of(row)
    } by {
        let mark = mark_before(start, polls, k);
        polls_find_the_captures_they_visit(mark, mark.beginning(), polls[k as int]);
    }
    assert forall|j: nat, at_j: int, k: nat, at_k: int, other: Row|
        #![trigger
            is_found_at(start, polls, row, j, at_j),
            is_found_at(start, polls, other, k, at_k)
        ]
        is_found_at(start, polls, row, j, at_j) && is_found_at(start, polls, other, k, at_k)
            && other.entry.id == row.entry.id implies j == k && at_j == at_k by {
        no_capture_is_found_twice(start, polls, date, row, other, j, at_j, k, at_k);
    }
}

/// A capture dated later than the start, and shown from the first poll on until it is done with,
/// is found by one of the polls and at one place only, once a poll returns nothing.
pub proof fn captures_after_the_start_are_found(
    start: i64,
    polls: Seq<Seq<Row>>,
    date: spec_fn(i64) -> i64,
    row: Row,
)
    requires
        polls.len() > 0,
        ids_keep_their_dates(polls, date),
        forall|k: nat|
            k < polls.len() && !(#[trigger] mark_before(start, polls, k)).is_done(row.entry)
                ==> in_order_of_addition(polls[k as int]) && polls[k as int].contains(row),
        row.entry.date_added > start,
        is_capture(row),
        result_of(start, polls, (polls.len() - 1) as nat).len() == 0,
    ensures
        exists|k: nat, i: int| #[trigger]
            is_found_at(start, polls, row, k, i) && i < result_of(start, polls, k).len()
                && result_of(start, polls, k)[i] == screenshot_of(row),
{
    assert(mark_before(start, polls, 0).watermark == start);
    each_capture_is_found_exactly_once(start, polls, date, row, 0);
    let (k, i) = choose|k: nat, i: int| is_found_at(start, polls, row, k, i);
    assert(is_found_at(start, polls, row, k, i));
}

/// A capture that is the only row of the first poll is what that poll returns, if it is later than
/// the start; and the poll returns nothing otherwise.
pub proof fn a_first_capture_is_found_at_once(start: i64, row: Row)
    requires
        is_capture(row),
    ensures
        result_of(start, seq![seq![row]], 0) == (if row.entry.date_added > start {
            seq![screenshot_of(row)]
        } else {
            Seq::empty()
        }),
{
    let rows = seq![row];
    let mark = Mark::at(start);
    reveal_with_fuel(walk, 2);
    assert(rows.drop_first() =~= Seq::<Row>::empty());
    assert(walk(mark, mark.beginning(), rows) == visit(mark, mark.beginning(), row));
    assert(seq![rows][0] == rows);
    assert(result_of(start, seq![rows], 0) =~= (if row.entry.date_added > start {
        seq![screenshot_of(row)]
    } else {
        Seq::empty()
    }));
}

/// What becomes of a row: a capture is one whose name and type are forwarded and whose bytes can
/// be read, and it becomes a screenshot of that name, with the extension it is forwarded under and
/// those bytes.
pub proof fn captures_become_their_screenshots(row: Row, name: Seq<char>, mime_type: Seq<char>)
    requires
        row.entry.display_name == Some(name),
        row.entry.mime_type == Some(mime_type),
    ensures
        is_capture(row) <==> forwarded_extension(name, mime_type) is Some && row.data is Some,
        is_capture(row) ==> {
            &&& screenshot_of(row).display_name == name
            &&& Some(screenshot_of(row).extension) == forwarded_extension(name, mime_type)
            &&& Some(screenshot_of(row).data) == row.data
        },
{
}

} // verus!
