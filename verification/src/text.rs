//! Text operations shared by the client and the server side.

use vstd::prelude::*;
use vstd::string::StrSliceExecFns;
use vstd::string::StringExecFns;
use vstd::utf8::is_ascii_chars;

verus! {

/// What `str::to_lowercase` gives for a text that holds a character outside ASCII.
pub uninterp spec fn unicode_lowercase(s: Seq<char>) -> Seq<char>;

/// The lower case form of one ASCII character.
pub open spec fn ascii_lowercase_char(c: char) -> char {
    if 'A' <= c <= 'Z' {
        (c as u32 + 32) as char
    } else {
        c
    }
}

/// A text with its ASCII letters in lower case.
pub open spec fn ascii_lowercase(s: Seq<char>) -> Seq<char> {
    s.map_values(|c: char| ascii_lowercase_char(c))
}

/// The lower case form of a text: that of its ASCII letters, and of the others by the Unicode
/// mapping.
pub open spec fn lowercase(s: Seq<char>) -> Seq<char> {
    if is_ascii_chars(s) {
        ascii_lowercase(s)
    } else {
        unicode_lowercase(ascii_lowercase(s))
    }
}

/// Calls `str::to_lowercase`. On ASCII text the letters `A` to `Z` become `a` to `z` and nothing
/// else changes; on any other text the result is a function of the text alone, and no more is
/// claimed of it.
#[verifier::external_body]
fn unicode_to_lowercase(s: &str) -> (lower: String)
    ensures
        lower@ == (if is_ascii_chars(s@) {
            ascii_lowercase(s@)
        } else {
            unicode_lowercase(s@)
        }),
{
    s.to_lowercase()
}

/// `str::to_ascii_lowercase` makes `a` to `z` of the letters `A` to `Z` and leaves every other
/// character as it is.
pub assume_specification[ str::to_ascii_lowercase ](s: &str) -> (lower: String)
    ensures
        lower@ == ascii_lowercase(s@),
;

/// The lower case form of a text. The ASCII letters come first, which makes it plain that their
/// case never matters, whatever other characters stand around them. It changes nothing in the
/// result: where the form of a letter depends on its neighbours, as with the Greek sigma, it
/// depends on whether they are letters and not on their case.
pub(crate) fn to_lowercase(s: &str) -> (lower: String)
    ensures
        lower@ == lowercase(s@),
{
    let ascii = s.to_ascii_lowercase();
    proof {
        lemma_ascii_lowercase(s@);
    }
    unicode_to_lowercase(ascii.as_str())
}

proof fn lemma_ascii_lowercase(s: Seq<char>)
    ensures
        is_ascii_chars(ascii_lowercase(s)) == is_ascii_chars(s),
        ascii_lowercase(ascii_lowercase(s)) == ascii_lowercase(s),
{
    let lower = ascii_lowercase(s);
    assert forall|i: int| 0 <= i < s.len() implies lower[i] == ascii_lowercase_char(
        #[trigger] s[i],
    ) by {}
    assert(ascii_lowercase(lower) =~= lower);
    if is_ascii_chars(lower) {
        assert forall|i: int| 0 <= i < s.len() implies (#[trigger] s[i] as u32) < 128 by {
            assert((lower[i] as u32) < 128);
        }
    }
}

pub(crate) proof fn lemma_lowercase_ignores_ascii_case(a: Seq<char>, b: Seq<char>)
    requires
        ascii_lowercase(a) == ascii_lowercase(b),
    ensures
        lowercase(a) == lowercase(b),
{
    lemma_ascii_lowercase(a);
    lemma_ascii_lowercase(b);
}

/// Whether a character counts as whitespace: whether it has the Unicode `White_Space` property.
pub open spec fn is_white(c: char) -> bool {
    ||| '\u{9}' <= c <= '\u{d}'
    ||| c == ' '
    ||| c == '\u{85}'
    ||| c == '\u{a0}'
    ||| c == '\u{1680}'
    ||| '\u{2000}' <= c <= '\u{200a}'
    ||| c == '\u{2028}'
    ||| c == '\u{2029}'
    ||| c == '\u{202f}'
    ||| c == '\u{205f}'
    ||| c == '\u{3000}'
}

/// `char::is_whitespace` tests the Unicode `White_Space` property.
pub assume_specification[ char::is_whitespace ](c: char) -> (white: bool)
    ensures
        white == is_white(c),
;

/// The text without the whitespace it starts with.
pub open spec fn trimmed_start(s: Seq<char>) -> Seq<char>
    decreases s.len(),
{
    if s.len() > 0 && is_white(s.first()) {
        trimmed_start(s.drop_first())
    } else {
        s
    }
}

/// The text without the whitespace it ends with.
pub open spec fn trimmed_end(s: Seq<char>) -> Seq<char>
    decreases s.len(),
{
    if s.len() > 0 && is_white(s.last()) {
        trimmed_end(s.drop_last())
    } else {
        s
    }
}

/// The text without the whitespace around it.
pub open spec fn trimmed(s: Seq<char>) -> Seq<char> {
    trimmed_end(trimmed_start(s))
}

/// What follows the last dot of a name, if it has one.
pub open spec fn after_last_dot(name: Seq<char>) -> Option<Seq<char>>
    decreases name.len(),
{
    if name.len() == 0 {
        None
    } else if name.last() == '.' {
        Some(Seq::empty())
    } else {
        match after_last_dot(name.drop_last()) {
            Some(tail) => Some(tail.push(name.last())),
            None => None,
        }
    }
}

/// Whether `needle` stands in `text` at position `at`.
pub open spec fn occurs_at(text: Seq<char>, needle: Seq<char>, at: int) -> bool {
    &&& 0 <= at
    &&& at + needle.len() <= text.len()
    &&& text.subrange(at, at + needle.len()) == needle
}

/// Whether `needle` stands anywhere in `text`.
pub open spec fn occurs_in(text: Seq<char>, needle: Seq<char>) -> bool {
    exists|at: int| occurs_at(text, needle, at)
}

/// The decimal digit `d`.
pub open spec fn digit(d: nat) -> char {
    if d == 0 {
        '0'
    } else if d == 1 {
        '1'
    } else if d == 2 {
        '2'
    } else if d == 3 {
        '3'
    } else if d == 4 {
        '4'
    } else if d == 5 {
        '5'
    } else if d == 6 {
        '6'
    } else if d == 7 {
        '7'
    } else if d == 8 {
        '8'
    } else {
        '9'
    }
}

/// A number in decimal, without leading zeros.
pub open spec fn decimal(n: nat) -> Seq<char>
    decreases n,
{
    if n < 10 {
        seq![digit(n)]
    } else {
        decimal(n / 10).push(digit(n % 10))
    }
}

/// Whether a text consists of decimal digits.
pub open spec fn is_digits(s: Seq<char>) -> bool {
    forall|i: int| 0 <= i < s.len() ==> '0' <= #[trigger] s[i] <= '9'
}

pub(crate) proof fn lemma_decimal_is_digits(n: nat)
    ensures
        is_digits(decimal(n)),
        decimal(n).len() > 0,
        n < 10 ==> decimal(n).len() == 1,
        10 <= n < 100 ==> decimal(n).len() == 2,
        100 <= n < 1000 ==> decimal(n).len() == 3,
        1000 <= n < 10000 ==> decimal(n).len() == 4,
    decreases n,
{
    if n >= 10 {
        lemma_decimal_is_digits(n / 10);
    }
}

/// Different numbers are written differently.
pub proof fn decimal_is_injective(a: nat, b: nat)
    requires
        decimal(a) == decimal(b),
    ensures
        a == b,
    decreases a,
{
    lemma_decimal_is_digits(a / 10);
    lemma_decimal_is_digits(b / 10);
    if a >= 10 && b >= 10 {
        assert(decimal(a).drop_last() =~= decimal(a / 10));
        assert(decimal(b).drop_last() =~= decimal(b / 10));
        decimal_is_injective(a / 10, b / 10);
    }
    assert(decimal(a).last() == digit(a % 10));
    assert(decimal(b).last() == digit(b % 10));
}

/// The characters of a text.
pub(crate) fn chars_of(s: &str) -> (chars: Vec<char>)
    ensures
        chars@ == s@,
{
    let mut chars: Vec<char> = Vec::new();
    for c in it: s.chars()
        invariant
            it.seq() == s@,
            chars@ == s@.take(it.index() as int),
    {
        chars.push(c);
    }
    chars
}

pub(crate) proof fn lemma_after_last_dot(name: Seq<char>, at: int)
    requires
        0 <= at < name.len(),
        name[at] == '.',
        forall|j: int| at < j < name.len() ==> name[j] != '.',
    ensures
        after_last_dot(name) == Some(name.skip(at + 1)),
    decreases name.len(),
{
    if at == name.len() - 1 {
        assert(name.skip(at + 1) =~= Seq::<char>::empty());
    } else {
        lemma_after_last_dot(name.drop_last(), at);
        assert(name.drop_last().skip(at + 1).push(name.last()) =~= name.skip(at + 1));
    }
}

proof fn lemma_without_dot(name: Seq<char>)
    requires
        forall|j: int| 0 <= j < name.len() ==> name[j] != '.',
    ensures
        after_last_dot(name) is None,
    decreases name.len(),
{
    if name.len() > 0 {
        lemma_without_dot(name.drop_last());
    }
}

/// What follows the last dot of a name.
pub(crate) fn split_after_last_dot(name: &str) -> (tail: Option<&str>)
    ensures
        match tail {
            Some(text) => after_last_dot(name@) == Some(text@),
            None => after_last_dot(name@) is None,
        },
{
    let chars = chars_of(name);
    let mut end: usize = chars.len();
    while end > 0
        invariant
            chars@ == name@,
            end <= chars@.len(),
            forall|j: int| end <= j < chars@.len() ==> chars@[j] != '.',
        decreases end,
    {
        if chars[end - 1] == '.' {
            proof {
                lemma_after_last_dot(name@, end - 1);
            }
            return Some(name.substring_char(end, chars.len()));
        }
        end = end - 1;
    }
    proof {
        lemma_without_dot(name@);
    }
    None
}

fn needle_at(text: &Vec<char>, needle: &Vec<char>, at: usize) -> (found: bool)
    requires
        at + needle@.len() <= text@.len(),
    ensures
        found == occurs_at(text@, needle@, at as int),
{
    let text_len: usize = text.len();
    let mut i: usize = 0;
    while i < needle.len()
        invariant
            i <= needle@.len(),
            at + needle@.len() <= text_len,
            text_len == text@.len(),
            forall|j: int| 0 <= j < i ==> text@[at + j] == needle@[j],
        decreases needle@.len() - i,
    {
        if text[at + i] != needle[i] {
            assert(text@.subrange(at as int, at + needle@.len())[i as int] != needle@[i as int]);
            return false;
        }
        i = i + 1;
    }
    assert(text@.subrange(at as int, at + needle@.len()) =~= needle@);
    true
}

/// Whether `needle` stands anywhere in `text`.
pub(crate) fn contains_text(text: &str, needle: &str) -> (found: bool)
    ensures
        found == occurs_in(text@, needle@),
{
    let text_chars = chars_of(text);
    let needle_chars = chars_of(needle);
    if needle_chars.len() > text_chars.len() {
        return false;
    }
    let last: usize = text_chars.len() - needle_chars.len();
    let mut at: usize = 0;
    while at < last
        invariant
            text_chars@ == text@,
            needle_chars@ == needle@,
            last + needle@.len() == text@.len(),
            at <= last,
            forall|j: int| 0 <= j < at ==> !occurs_at(text@, needle@, j),
        decreases last - at,
    {
        if needle_at(&text_chars, &needle_chars, at) {
            return true;
        }
        at = at + 1;
    }
    needle_at(&text_chars, &needle_chars, at)
}

proof fn lemma_trimmed_start(s: Seq<char>, from: int)
    requires
        0 <= from <= s.len(),
        forall|j: int| 0 <= j < from ==> is_white(s[j]),
        from < s.len() ==> !is_white(s[from]),
    ensures
        trimmed_start(s) == s.skip(from),
    decreases from,
{
    if from > 0 {
        lemma_trimmed_start(s.drop_first(), from - 1);
        assert(s.drop_first().skip(from - 1) =~= s.skip(from));
    } else {
        assert(s.skip(0) =~= s);
    }
}

proof fn lemma_trimmed_end(s: Seq<char>, to: int)
    requires
        0 <= to <= s.len(),
        forall|j: int| to <= j < s.len() ==> is_white(s[j]),
        to > 0 ==> !is_white(s[to - 1]),
    ensures
        trimmed_end(s) == s.take(to),
    decreases s.len(),
{
    if to < s.len() {
        lemma_trimmed_end(s.drop_last(), to);
        assert(s.drop_last().take(to) =~= s.take(to));
    } else {
        assert(s.take(to) =~= s);
    }
}

/// The text without the whitespace around it.
pub(crate) fn trim(s: &str) -> (inner: &str)
    ensures
        inner@ == trimmed(s@),
{
    let chars = chars_of(s);
    let mut from: usize = 0;
    while from < chars.len() && chars[from].is_whitespace()
        invariant
            from <= chars@.len(),
            forall|j: int| 0 <= j < from ==> is_white(chars@[j]),
        decreases chars@.len() - from,
    {
        from = from + 1;
    }
    let mut to: usize = chars.len();
    while to > from && chars[to - 1].is_whitespace()
        invariant
            from <= to <= chars@.len(),
            forall|j: int| to <= j < chars@.len() ==> is_white(chars@[j]),
        decreases to,
    {
        to = to - 1;
    }
    proof {
        lemma_trimmed_start(s@, from as int);
        let rest = s@.skip(from as int);
        lemma_trimmed_end(rest, to - from);
        assert(rest.take(to - from) =~= s@.subrange(from as int, to as int));
    }
    s.substring_char(from, to)
}

fn digit_text(d: u32) -> (text: &'static str)
    requires
        d < 10,
    ensures
        text@ == seq![digit(d as nat)],
{
    proof {
        reveal_strlit("0");
        reveal_strlit("1");
        reveal_strlit("2");
        reveal_strlit("3");
        reveal_strlit("4");
        reveal_strlit("5");
        reveal_strlit("6");
        reveal_strlit("7");
        reveal_strlit("8");
        reveal_strlit("9");
    }
    if d == 0 {
        "0"
    } else if d == 1 {
        "1"
    } else if d == 2 {
        "2"
    } else if d == 3 {
        "3"
    } else if d == 4 {
        "4"
    } else if d == 5 {
        "5"
    } else if d == 6 {
        "6"
    } else if d == 7 {
        "7"
    } else if d == 8 {
        "8"
    } else {
        "9"
    }
}

/// A number in decimal.
pub(crate) fn decimal_text(n: u32) -> (text: String)
    ensures
        text@ == decimal(n as nat),
    decreases n,
{
    if n < 10 {
        digit_text(n).to_owned()
    } else {
        let mut text = decimal_text(n / 10);
        text.append(digit_text(n % 10));
        assert(text@ =~= decimal(n as nat));
        text
    }
}

/// The characters that count as whitespace, by their code points.
pub proof fn white_space_is_what_unicode_says(c: char)
    ensures
        is_white(c) <==> {
            let code = c as u32;
            ||| 0x9 <= code <= 0xd
            ||| code == 0x20
            ||| code == 0x85
            ||| code == 0xa0
            ||| code == 0x1680
            ||| 0x2000 <= code <= 0x200a
            ||| code == 0x2028
            ||| code == 0x2029
            ||| code == 0x202f
            ||| code == 0x205f
            ||| code == 0x3000
        },
{
}

/// Trimming takes the whitespace off both ends and nothing else: there is whitespace only before
/// and behind what is left, and what is left neither begins nor ends with any. A text that neither
/// begins nor ends with whitespace stays as it is.
pub proof fn trimming_takes_off_outer_white_space(s: Seq<char>)
    ensures
        exists|from: int, to: int|
            {
                &&& 0 <= from <= to <= s.len()
                &&& trimmed(s) == #[trigger] s.subrange(from, to)
                &&& forall|i: int| 0 <= i < from ==> is_white(#[trigger] s[i])
                &&& forall|i: int| to <= i < s.len() ==> is_white(#[trigger] s[i])
            },
        trimmed(s).len() > 0 ==> !is_white(trimmed(s).first()) && !is_white(trimmed(s).last()),
        s.len() > 0 && !is_white(s.first()) && !is_white(s.last()) ==> trimmed(s) == s,
        trimmed(s).len() == 0 <==> forall|i: int| 0 <= i < s.len() ==> is_white(#[trigger] s[i]),
{
    let from = first_dark(s, 0);
    lemma_first_dark(s, 0);
    let to = last_dark(s, from, s.len() as int);
    lemma_last_dark(s, from, s.len() as int);
    lemma_trimmed_start(s, from);
    let rest = s.skip(from);
    lemma_trimmed_end(rest, to - from);
    assert(rest.take(to - from) =~= s.subrange(from, to));
    if s.len() > 0 && !is_white(s.first()) && !is_white(s.last()) {
        assert(s.subrange(0, s.len() as int) =~= s);
    }
    if from < to {
        assert(!is_white(s[from]));
    }
}

spec fn first_dark(s: Seq<char>, from: int) -> int
    decreases s.len() - from,
{
    if from < s.len() && is_white(s[from]) {
        first_dark(s, from + 1)
    } else {
        from
    }
}

proof fn lemma_first_dark(s: Seq<char>, from: int)
    requires
        0 <= from <= s.len(),
    ensures
        from <= first_dark(s, from) <= s.len(),
        forall|i: int| from <= i < first_dark(s, from) ==> is_white(#[trigger] s[i]),
        first_dark(s, from) < s.len() ==> !is_white(s[first_dark(s, from)]),
    decreases s.len() - from,
{
    if from < s.len() && is_white(s[from]) {
        lemma_first_dark(s, from + 1);
    }
}

spec fn last_dark(s: Seq<char>, from: int, to: int) -> int
    decreases to - from,
{
    if from < to && is_white(s[to - 1]) {
        last_dark(s, from, to - 1)
    } else {
        to
    }
}

proof fn lemma_last_dark(s: Seq<char>, from: int, to: int)
    requires
        0 <= from <= to <= s.len(),
    ensures
        from <= last_dark(s, from, to) <= to,
        forall|i: int| last_dark(s, from, to) <= i < to ==> is_white(#[trigger] s[i]),
        last_dark(s, from, to) > from ==> !is_white(s[last_dark(s, from, to) - 1]),
    decreases to - from,
{
    if from < to && is_white(s[to - 1]) {
        lemma_last_dark(s, from, to - 1);
    }
}

/// Lower case changes the letters `A` to `Z`, each into the letter 32 code points on, and no other
/// ASCII character. A text with other characters goes on to the Unicode mapping.
pub proof fn lower_case_moves_capitals(s: Seq<char>, lower: Seq<char>)
    requires
        lower.len() == s.len(),
        forall|i: int|
            0 <= i < s.len() ==> #[trigger] lower[i] as int == (if 65 <= s[i] as int <= 90 {
                s[i] as int + 32
            } else {
                s[i] as int
            }),
    ensures
        ascii_lowercase(s) == lower,
        is_ascii_chars(s) ==> lowercase(s) == lower,
        !is_ascii_chars(s) ==> lowercase(s) == unicode_lowercase(lower),
{
    assert forall|i: int| 0 <= i < s.len() implies ascii_lowercase(s)[i] == #[trigger] lower[i] by {
        assert(ascii_lowercase(s)[i] as int == lower[i] as int);
    }
    assert(ascii_lowercase(s) =~= lower);
}

/// What follows the last dot is what follows a dot and holds none itself. A text without a dot has
/// no last one.
pub proof fn the_last_dot_has_none_behind_it(stem: Seq<char>, tail: Seq<char>)
    requires
        forall|i: int| 0 <= i < tail.len() ==> #[trigger] tail[i] != '.',
    ensures
        after_last_dot(stem + seq!['.'] + tail) == Some(tail),
        after_last_dot(tail) is None,
{
    let name = stem + seq!['.'] + tail;
    let at = stem.len() as int;
    assert forall|j: int| at < j < name.len() implies name[j] != '.' by {
        assert(tail[j - at - 1] == name[j]);
    }
    lemma_after_last_dot(name, at);
    assert(name.skip(at + 1) =~= tail);
    lemma_without_dot(tail);
}

/// A text is found exactly where something stands before it and something behind it, perhaps
/// nothing.
pub proof fn what_occurs_has_a_before_and_an_after(
    text: Seq<char>,
    needle: Seq<char>,
    before: Seq<char>,
    after: Seq<char>,
)
    ensures
        occurs_in(before + needle + after, needle),
        occurs_in(text, needle) ==> exists|head: Seq<char>, tail: Seq<char>|
            text == #[trigger] (head + needle + tail),
{
    let whole = before + needle + after;
    let at = before.len() as int;
    assert(whole.subrange(at, at + needle.len()) =~= needle);
    assert(occurs_at(whole, needle, at));
    if occurs_in(text, needle) {
        let at = choose|at: int| occurs_at(text, needle, at);
        let head = text.take(at);
        let tail = text.skip(at + needle.len());
        assert(text =~= head + needle + tail);
    }
}

/// A number ends in its last digit, before which stands the number without it. A single digit is
/// written by itself.
pub proof fn decimal_goes_by_tens(n: nat)
    ensures
        decimal(n).len() > 0,
        decimal(n).last() as u32 == 48 + n % 10,
        n < 10 ==> decimal(n).len() == 1,
        n >= 10 ==> decimal(n).drop_last() == decimal(n / 10),
{
    if n >= 10 {
        assert(decimal(n).drop_last() =~= decimal(n / 10));
    }
}

} // verus!
