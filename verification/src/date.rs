//! The date strings of a document's information dictionary, and the
//! instants with a fixed offset from UTC that they stand for.

use vstd::prelude::*;
use vstd::string::StrSliceExecFns;

verus! {

/// An instant, to the second, with a fixed offset from UTC.
#[derive(Clone, Copy, Debug, PartialEq, Eq, Structural)]
pub struct PdfDate {
    /// Seconds since 1970-01-01 00:00:00 UTC, leap seconds not counted.
    pub timestamp: i64,
    /// Seconds by which local time is ahead of UTC.
    pub offset: i32,
}

/// The seconds from 1970-01-01 00:00:00 to the date and time that `text`
/// spells as year, month, day, hour, minute and second, read without a time
/// zone; `None` where `text` spells no date and time.
pub uninterp spec fn naive_seconds(text: Seq<char>) -> Option<int>;

/// The date string for the instant `timestamp` at `offset` seconds east of
/// UTC; `None` where the instant or the offset is out of range.
pub uninterp spec fn date_text(timestamp: int, offset: int) -> Option<Seq<char>>;

/// Reads `text` as a date and time without a time zone, in the form
/// `%Y%m%d%H%M%S` of `chrono::NaiveDateTime::parse_from_str`, and gives the
/// seconds that `chrono::DateTime::timestamp` counts for it when it is
/// taken as UTC. The result is `None` exactly where chrono reports a parse
/// error. Nothing is claimed of which texts chrono accepts: the result is
/// only named.
#[verifier::external_body]
fn parse_naive(text: &str) -> (seconds: Option<i64>)
    ensures
        match seconds {
            Some(s) => naive_seconds(text@) == Some(s as int),
            None => naive_seconds(text@) is None,
        },
{
    match chrono::NaiveDateTime::parse_from_str(text, "%Y%m%d%H%M%S") {
        Ok(naive) => Some(naive.and_utc().timestamp()),
        Err(_) => None,
    }
}

/// Formats the instant `timestamp` in the zone `offset` seconds east of UTC
/// with `chrono::DateTime::format` and the pattern `D:%Y%m%d%H%M%S%z`. The
/// result is `None` where `chrono::FixedOffset::east_opt` refuses the
/// offset, which it does outside -86399..=86399, or
/// `chrono::DateTime::from_timestamp` refuses the instant. The text itself
/// is only named.
#[verifier::external_body]
fn format_instant(timestamp: i64, offset: i32) -> (text: Option<String>)
    ensures
        match text {
            Some(t) => date_text(timestamp as int, offset as int) == Some(t@),
            None => date_text(timestamp as int, offset as int) is None,
        },
        !(-86400 < offset < 86400) ==> text is None,
{
    let zone = chrono::FixedOffset::east_opt(offset)?;
    let utc = chrono::DateTime::from_timestamp(timestamp, 0)?;
    Some(utc.with_timezone(&zone).format("D:%Y%m%d%H%M%S%z").to_string())
}

/// `i` is the last place of `c` in `text`.
pub open spec fn is_last(text: Seq<char>, c: char, i: int) -> bool {
    &&& 0 <= i < text.len()
    &&& text[i] == c
    &&& forall|j: int| i < j < text.len() ==> text[j] != c
}

/// The last place of `c` in `text`.
pub open spec fn last_index(text: Seq<char>, c: char) -> int {
    choose|i: int| is_last(text, c, i)
}

/// `text` without its apostrophes.
pub open spec fn without_marks(text: Seq<char>) -> Seq<char>
    decreases text.len(),
{
    if text.len() == 0 {
        Seq::empty()
    } else if text.last() == '\'' {
        without_marks(text.drop_last())
    } else {
        without_marks(text.drop_last()).push(text.last())
    }
}

/// Every character of `text` is a decimal digit.
pub open spec fn all_digits(text: Seq<char>) -> bool {
    forall|i: int| 0 <= i < text.len() ==> '0' <= #[trigger] text[i] <= '9'
}

/// The number that the digits of `text` spell.
pub open spec fn digits_value(text: Seq<char>) -> int
    decreases text.len(),
{
    if text.len() == 0 {
        0
    } else {
        digits_value(text.drop_last()) * 10 + (text.last() as int - '0' as int)
    }
}

/// The offset in seconds that the digits of a zone spell: two digits of
/// hours, then one or more digits of minutes. `None` where there are too
/// few characters, one is no digit, or the offset is a day or more.
pub open spec fn zone_offset(zone: Seq<char>) -> Option<int> {
    if zone.len() >= 3 && all_digits(zone) {
        let seconds = digits_value(zone.take(2)) * 3600 + digits_value(zone.skip(2)) * 60;
        if seconds < 86400 {
            Some(seconds)
        } else {
            None
        }
    } else {
        None
    }
}

/// `text` without a leading `D:`.
pub open spec fn without_prefix(text: Seq<char>) -> Seq<char> {
    if text.len() >= 2 && text[0] == 'D' && text[1] == ':' {
        text.skip(2)
    } else {
        text
    }
}

/// The date part of a date string and the offset of its zone: a trailing
/// `Z` is UTC; else what follows the last `+` is an offset to the east;
/// else what follows the last `-` is one to the west; else the string is
/// all date and the zone is UTC. `None` where the zone is malformed.
pub open spec fn split_zone(text: Seq<char>) -> Option<(Seq<char>, int)> {
    if text.len() > 0 && text.last() == 'Z' {
        Some((text.drop_last(), 0))
    } else if text.contains('+') {
        let at = last_index(text, '+');
        match zone_offset(without_marks(text.skip(at + 1))) {
            Some(seconds) => Some((text.take(at), seconds)),
            None => None,
        }
    } else if text.contains('-') {
        let at = last_index(text, '-');
        match zone_offset(without_marks(text.skip(at + 1))) {
            Some(seconds) => Some((text.take(at), -seconds)),
            None => None,
        }
    } else {
        Some((text, 0))
    }
}

/// The instant that a local date and time, given in seconds, stands for at
/// `offset` seconds east of UTC; `None` where there is no local time or
/// the instant does not fit.
pub open spec fn instant_of(local: Option<int>, offset: int) -> Option<PdfDate> {
    match local {
        Some(seconds) => if i64::MIN <= seconds - offset <= i64::MAX && -86400 < offset < 86400 {
            Some(PdfDate { timestamp: (seconds - offset) as i64, offset: offset as i32 })
        } else {
            None
        },
        None => None,
    }
}

/// The instant that a date string stands for.
pub open spec fn parsed_date(text: Seq<char>) -> Option<PdfDate> {
    match split_zone(without_prefix(text)) {
        Some((date, offset)) => instant_of(naive_seconds(date), offset),
        None => None,
    }
}

/// The last place of `c` among the characters `from..to` of `text`.
pub fn find_last(text: &str, from: usize, to: usize, c: char) -> (r: Option<usize>)
    requires
        from <= to <= text@.len(),
    ensures
        match r {
            Some(i) => from <= i < to && is_last(text@.subrange(from as int, to as int), c, i - from),
            None => !text@.subrange(from as int, to as int).contains(c),
        },
{
    let ghost part = text@.subrange(from as int, to as int);
    let mut k: usize = to;
    while k > from
        invariant
            from <= k <= to <= text@.len(),
            part == text@.subrange(from as int, to as int),
            forall|j: int| k - from <= j < part.len() ==> part[j] != c,
        decreases k,
    {
        k -= 1;
        if text.get_char(k) == c {
            assert(part[k - from] == c);
            return Some(k);
        }
        assert(part[k - from] != c);
    }
    None
}

/// The characters `from..to` of `text` without the apostrophes.
pub fn digits_of(text: &str, from: usize, to: usize) -> (r: Vec<char>)
    requires
        from <= to <= text@.len(),
    ensures
        r@ == without_marks(text@.subrange(from as int, to as int)),
{
    let mut out: Vec<char> = Vec::new();
    let mut k: usize = from;
    assert(text@.subrange(from as int, from as int) =~= Seq::<char>::empty());
    while k < to
        invariant
            from <= k <= to <= text@.len(),
            out@ == without_marks(text@.subrange(from as int, k as int)),
        decreases to - k,
    {
        let c = text.get_char(k);
        proof {
            let next = text@.subrange(from as int, k + 1);
            assert(next.drop_last() =~= text@.subrange(from as int, k as int));
            assert(next.last() == c);
        }
        if c != '\'' {
            out.push(c);
        }
        k += 1;
    }
    out
}

/// Appending a digit does not make a number smaller.
pub proof fn lemma_digits_value_grows(text: Seq<char>, k: int)
    requires
        all_digits(text),
        0 <= k <= text.len(),
    ensures
        0 <= digits_value(text.take(k)) <= digits_value(text),
    decreases text.len() - k,
{
    lemma_digits_value_bounds(text.take(k));
    if k < text.len() {
        lemma_digits_value_grows(text, k + 1);
        assert(text.take(k + 1).drop_last() =~= text.take(k));
        lemma_digits_value_bounds(text.take(k + 1));
    } else {
        assert(text.take(k) =~= text);
    }
}

/// Digits spell no negative number.
pub proof fn lemma_digits_value_bounds(text: Seq<char>)
    requires
        all_digits(text),
    ensures
        0 <= digits_value(text),
    decreases text.len(),
{
    if text.len() > 0 {
        lemma_digits_value_bounds(text.drop_last());
    }
}

/// The offset in seconds that the digits of a zone spell.
pub fn zone_seconds(zone: &Vec<char>) -> (r: Option<i32>)
    ensures
        match r {
            Some(seconds) => zone_offset(zone@) == Some(seconds as int),
            None => zone_offset(zone@) is None,
        },
{
    if zone.len() < 3 {
        return None;
    }
    let mut k: usize = 0;
    while k < zone.len()
        invariant
            0 <= k <= zone.len(),
            forall|j: int| 0 <= j < k ==> '0' <= #[trigger] zone@[j] <= '9',
        decreases zone.len() - k,
    {
        let c = zone[k];
        if !(c >= '0' && c <= '9') {
            return None;
        }
        k += 1;
    }
    assert(all_digits(zone@));
    let ghost head = zone@.take(2);
    let ghost tail = zone@.skip(2);
    let hours: u32 = (zone[0] as u32 - '0' as u32) * 10 + (zone[1] as u32 - '0' as u32);
    proof {
        assert(head.drop_last() =~= seq![zone@[0]]);
        assert(head.drop_last().drop_last() =~= Seq::<char>::empty());
        assert(head.last() == zone@[1]);
        assert(head.drop_last().last() == zone@[0]);
        assert(digits_value(head.drop_last().drop_last()) == 0);
        assert(digits_value(head.drop_last()) == zone@[0] as int - '0' as int);
        assert(all_digits(head)) by {
            assert forall|i: int| 0 <= i < head.len() implies '0' <= #[trigger] head[i] <= '9' by {
                assert(head[i] == zone@[i]);
            }
        }
        assert(all_digits(tail)) by {
            assert forall|i: int| 0 <= i < tail.len() implies '0' <= #[trigger] tail[i] <= '9' by {
                assert(tail[i] == zone@[i + 2]);
            }
        }
        assert(digits_value(head) == hours as int);
    }
    let mut minutes: u32 = 0;
    let mut k: usize = 2;
    assert(tail.take(0) =~= Seq::<char>::empty());
    while k < zone.len()
        invariant
            2 <= k <= zone.len(),
            tail == zone@.skip(2),
            head == zone@.take(2),
            all_digits(zone@),
            all_digits(head),
            all_digits(tail),
            zone.len() >= 3,
            minutes == digits_value(tail.take(k - 2)),
            minutes < 1440,
        decreases zone.len() - k,
    {
        let digit: u32 = zone[k] as u32 - '0' as u32;
        proof {
            assert(tail.take(k - 1).drop_last() =~= tail.take(k - 2));
            assert(tail.take(k - 1).last() == zone@[k as int]);
        }
        minutes = minutes * 10 + digit;
        if minutes >= 1440 {
            proof {
                lemma_digits_value_grows(tail, k - 1);
                lemma_digits_value_bounds(head);
            }
            return None;
        }
        k += 1;
    }
    assert(tail.take(tail.len() as int) =~= tail);
    let seconds = hours * 3600 + minutes * 60;
    if seconds < 86400 {
        Some(seconds as i32)
    } else {
        None
    }
}

/// The instant that a local date and time, given in seconds, stands for at
/// `offset` seconds east of UTC.
pub fn instant(local: Option<i64>, offset: i32) -> (r: Option<PdfDate>)
    ensures
        r == instant_of(
            match local {
                Some(seconds) => Some(seconds as int),
                None => None,
            },
            offset as int,
        ),
{
    match local {
        Some(seconds) => {
            if offset <= -86400 || offset >= 86400 {
                return None;
            }
            match seconds.checked_sub(offset as i64) {
                Some(timestamp) => Some(PdfDate { timestamp, offset }),
                None => None,
            }
        },
        None => None,
    }
}

/// The zone of the date string that the characters `start..` of `text`
/// hold: where the date part ends, and the offset.
pub fn zone_split(text: &str, start: usize) -> (r: Option<(usize, i32)>)
    requires
        start <= text@.len(),
    ensures
        match r {
            Some((end, offset)) => start <= end <= text@.len() && split_zone(
                text@.skip(start as int),
            ) == Some((text@.subrange(start as int, end as int), offset as int)),
            None => split_zone(text@.skip(start as int)) is None,
        },
{
    let n = text.unicode_len();
    let ghost body = text@.skip(start as int);
    proof {
        assert(body =~= text@.subrange(start as int, n as int));
    }
    if n > start && text.get_char(n - 1) == 'Z' {
        proof {
            assert(body.last() == 'Z');
            assert(body.drop_last() =~= text@.subrange(start as int, n - 1));
        }
        return Some((n - 1, 0));
    }
    assert(!(body.len() > 0 && body.last() == 'Z'));
    let plus = find_last(text, start, n, '+');
    if let Some(at) = plus {
        proof {
            lemma_last_index(body, '+', at - start);
            assert(body.skip(at - start + 1) =~= text@.subrange(at + 1, n as int));
            assert(body.take(at - start) =~= text@.subrange(start as int, at as int));
        }
        let zone = digits_of(text, at + 1, n);
        return match zone_seconds(&zone) {
            Some(seconds) => Some((at, seconds)),
            None => None,
        };
    }
    assert(!body.contains('+'));
    let minus = find_last(text, start, n, '-');
    if let Some(at) = minus {
        proof {
            lemma_last_index(body, '-', at - start);
            assert(body.skip(at - start + 1) =~= text@.subrange(at + 1, n as int));
            assert(body.take(at - start) =~= text@.subrange(start as int, at as int));
        }
        let zone = digits_of(text, at + 1, n);
        return match zone_seconds(&zone) {
            Some(seconds) => Some((at, -seconds)),
            None => None,
        };
    }
    assert(!body.contains('-'));
    Some((n, 0))
}

/// Reads a date string: an optional `D:`, a date and time of year, month,
/// day, hour, minute and second, then a zone: `Z`, or `+` or `-` with
/// hours and minutes, apostrophes between them passed over, or nothing,
/// which is UTC. The date and time are local to the zone.
pub fn parse_pdf_date(date_str: &str) -> (r: Option<PdfDate>)
    ensures
        r == parsed_date(date_str@),
{
    let n = date_str.unicode_len();
    let start: usize = if n >= 2 && date_str.get_char(0) == 'D' && date_str.get_char(1) == ':' {
        2
    } else {
        0
    };
    proof {
        assert(without_prefix(date_str@) =~= date_str@.skip(start as int));
    }
    match zone_split(date_str, start) {
        Some((end, offset)) => {
            let date = date_str.substring_char(start, end);
            instant(parse_naive(date), offset)
        },
        None => None,
    }
}

/// The last place of a character is unique.
pub proof fn lemma_last_index(text: Seq<char>, c: char, i: int)
    requires
        is_last(text, c, i),
    ensures
        text.contains(c),
        last_index(text, c) == i,
{
    let k = last_index(text, c);
    assert(is_last(text, c, k));
    if k < i {
        assert(text[i] != c);
    }
    if i < k {
        assert(text[k] != c);
    }
}

/// Writes an instant as a date string: `D:`, the local date and time, and
/// the offset as a sign with hours and minutes. `None` where the instant
/// or the offset is out of range.
pub fn format_pdf_date(date: &PdfDate) -> (r: Option<String>)
    ensures
        match r {
            Some(text) => date_text(date.timestamp as int, date.offset as int) == Some(text@),
            None => date_text(date.timestamp as int, date.offset as int) is None,
        },
        !(-86400 < date.offset < 86400) ==> r is None,
{
    format_instant(date.timestamp, date.offset)
}

} // verus!
