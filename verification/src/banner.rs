//! What is shown of the system when it starts.

use chrono::DateTime;
use chrono::FixedOffset;
use vstd::prelude::*;
use vstd::string::*;

verus! {

/// How dates are shown.
pub const DATE_FORMAT: &'static str = "%Y-%m-%d %H:%M:%S";

/// What is shown of something that is not known.
pub const UNKNOWN: &'static str = "Unknown";

/// The date that `chrono` reads from an RFC 2822 date: seconds since the start of 1970 in UTC,
/// nanoseconds, and the seconds by which its time zone is ahead of UTC; `None` where the text is
/// no such date.
pub uninterp spec fn rfc2822_date(text: Seq<char>) -> Option<(i64, u32, i32)>;

/// The text that `chrono` makes of a date in a format; `None` where it has no such date.
pub uninterp spec fn date_shown(
    seconds: i64,
    nanos: u32,
    offset: i32,
    format: Seq<char>,
) -> Option<Seq<char>>;

/// `chrono::DateTime::parse_from_rfc2822`. Claimed of it: the date depends on the text alone, and
/// is what [`rfc2822_date`] names.
#[verifier::external_body]
fn parse_rfc2822(text: &str) -> (date: Option<(i64, u32, i32)>)
    ensures
        date == rfc2822_date(text@),
{
    match DateTime::parse_from_rfc2822(text) {
        Ok(date) => Some(
            (date.timestamp(), date.timestamp_subsec_nanos(), date.offset().local_minus_utc()),
        ),
        Err(_) => None,
    }
}

/// `chrono::DateTime::format`, in the format `%Y-%m-%d %H:%M:%S`, of the date that the numbers
/// stand for. Claimed of it: the text depends on the numbers and the format alone, and is what
/// [`date_shown`] names.
#[verifier::external_body]
fn show_date(seconds: i64, nanos: u32, offset: i32, format: &str) -> (shown: Option<String>)
    requires
        format@ == DATE_FORMAT@,
    ensures
        date_shown(seconds, nanos, offset, format@) == match shown {
            Some(shown) => Some(shown@),
            None => None,
        },
{
    let zone = FixedOffset::east_opt(offset)?;
    let date = DateTime::from_timestamp(seconds, nanos)?;
    Some(date.with_timezone(&zone).format(format).to_string())
}

/// The character has the Unicode property White_Space.
pub open spec fn white_space(c: char) -> bool {
    let point = c as u32;
    ||| 0x9 <= point <= 0xd
    ||| point == 0x20
    ||| point == 0x85
    ||| point == 0xa0
    ||| point == 0x1680
    ||| 0x2000 <= point <= 0x200a
    ||| point == 0x2028
    ||| point == 0x2029
    ||| point == 0x202f
    ||| point == 0x205f
    ||| point == 0x3000
}

/// `char::is_whitespace`: whether the character has the Unicode property White_Space.
pub assume_specification[ char::is_whitespace ](c: char) -> (white: bool)
    ensures
        white == white_space(c),
;

/// What is shown of a date: itself, or that it is not known.
pub open spec fn known(shown: Option<Seq<char>>) -> Seq<char> {
    match shown {
        Some(shown) => shown,
        None => UNKNOWN@,
    }
}

/// What is shown of a text that may not be known.
pub fn or_unknown(shown: Option<String>) -> (text: String)
    ensures
        text@ == known(
            match shown {
                Some(shown) => Some(shown@),
                None => None,
            },
        ),
{
    match shown {
        Some(shown) => shown,
        None => String::from_str(UNKNOWN),
    }
}

/// What is shown of a date that was read.
pub open spec fn shown_or_unknown(date: Option<(i64, u32, i32)>) -> Seq<char> {
    match date {
        Some((seconds, nanos, offset)) => known(date_shown(seconds, nanos, offset, DATE_FORMAT@)),
        None => UNKNOWN@,
    }
}

/// The text for a date that was read: seconds since the start of 1970 in UTC, nanoseconds, and the
/// seconds by which its time zone is ahead of UTC.
pub fn date_text(date: Option<(i64, u32, i32)>) -> (text: String)
    ensures
        text@ == shown_or_unknown(date),
{
    match date {
        Some((seconds, nanos, offset)) => or_unknown(show_date(seconds, nanos, offset, DATE_FORMAT)),
        None => String::from_str(UNKNOWN),
    }
}

/// The date at which the system was built, from an RFC 2822 date.
pub fn build_date(built_time: &str) -> (date: String)
    ensures
        date@ == shown_or_unknown(rfc2822_date(built_time@)),
{
    date_text(parse_rfc2822(built_time))
}

/// `v<version> (<profile> - O<optimisation level>)`
pub open spec fn version_shown(
    version: Seq<char>,
    profile: Seq<char>,
    opt_level: Seq<char>,
) -> Seq<char> {
    "v"@ + version + " ("@ + profile + " - O"@ + opt_level + ")"@
}

/// The version of the system: `v<version> (<profile> - O<optimisation level>)`.
pub fn version_text(version: &str, profile: &str, opt_level: &str) -> (text: String)
    ensures
        text@ == version_shown(version@, profile@, opt_level@),
{
    let mut text: String = String::from_str("v");
    text.append(version);
    text.append(" (");
    text.append(profile);
    text.append(" - O");
    text.append(opt_level);
    text.append(")");
    text
}

/// `short` is the part of the reference behind its last slash; all of it where it has none.
pub open spec fn is_short(git_ref: Seq<char>, short: Seq<char>) -> bool {
    &&& short.len() <= git_ref.len()
    &&& short == git_ref.skip(git_ref.len() - short.len())
    &&& forall|i: int| 0 <= i < short.len() ==> short[i] != '/'
    &&& short.len() < git_ref.len() ==> git_ref[git_ref.len() - short.len() - 1] == '/'
}

/// The part of a git reference behind its last slash; all of it where it has none.
pub fn short_ref(git_ref: &str) -> (short: &str)
    ensures
        is_short(git_ref@, short@),
{
    let len: usize = git_ref.unicode_len();
    let mut from: usize = len;
    while from > 0 && git_ref.get_char(from - 1) != '/'
        invariant
            from <= len == git_ref@.len(),
            forall|i: int| from <= i < len ==> git_ref@[i] != '/',
        decreases from,
    {
        from = from - 1;
    }
    let short: &str = git_ref.substring_char(from, len);
    assert(short@ =~= git_ref@.skip(from as int));
    short
}

/// The part of a text in front of the first opening parenthesis; all of it where it has none.
pub open spec fn before_parenthesis(text: Seq<char>) -> Seq<char>
    decreases text.len(),
{
    if text.len() == 0 {
        text
    } else {
        let front = before_parenthesis(text.drop_last());
        if front.len() < text.len() - 1 || text.last() == '(' {
            front
        } else {
            text
        }
    }
}

/// `inner` is `text` without the white space around it.
pub open spec fn is_trimmed(text: Seq<char>, inner: Seq<char>) -> bool {
    exists|from: int, to: int|
        {
            &&& 0 <= from <= to <= text.len()
            &&& #[trigger] text.subrange(from, to) == inner
            &&& forall|i: int| 0 <= i < from ==> white_space(#[trigger] text[i])
            &&& forall|i: int| to <= i < text.len() ==> white_space(#[trigger] text[i])
            &&& from < to ==> !white_space(text[from]) && !white_space(text[to - 1])
        }
}

/// The name of the compiler: the version text up to the first opening parenthesis, without the
/// white space around it.
pub fn compiler_name(rustc_version: &str) -> (name: &str)
    ensures
        is_trimmed(before_parenthesis(rustc_version@), name@),
{
    let len: usize = rustc_version.unicode_len();
    let mut end: usize = 0;
    while end < len && rustc_version.get_char(end) != '('
        invariant
            end <= len == rustc_version@.len(),
            before_parenthesis(rustc_version@.take(end as int)) == rustc_version@.take(end as int),
        decreases len - end,
    {
        proof {
            assert(rustc_version@.take(end + 1).drop_last() =~= rustc_version@.take(end as int));
        }
        end = end + 1;
    }
    let ghost front = rustc_version@.take(end as int);
    proof { lemma_before_parenthesis(rustc_version@, end as int); }
    let mut from: usize = 0;
    while from < end && rustc_version.get_char(from).is_whitespace()
        invariant
            from <= end <= rustc_version@.len(),
            front == rustc_version@.take(end as int),
            forall|i: int| 0 <= i < from ==> white_space(#[trigger] front[i]),
        decreases end - from,
    {
        assert(front[from as int] == rustc_version@[from as int]);
        from = from + 1;
    }
    let mut to: usize = end;
    while to > from && rustc_version.get_char(to - 1).is_whitespace()
        invariant
            from <= to <= end <= rustc_version@.len(),
            front == rustc_version@.take(end as int),
            forall|i: int| to <= i < end ==> white_space(#[trigger] front[i]),
        decreases to - from,
    {
        assert(front[to - 1] == rustc_version@[to - 1]);
        to = to - 1;
    }
    let name: &str = rustc_version.substring_char(from, to);
    assert(name@ =~= front.subrange(from as int, to as int));
    if from < to {
        assert(front[from as int] == rustc_version@[from as int]);
        assert(front[to - 1] == rustc_version@[to - 1]);
    }
    name
}

proof fn lemma_before_parenthesis(text: Seq<char>, end: int)
    requires
        0 <= end <= text.len(),
        before_parenthesis(text.take(end)) == text.take(end),
        end < text.len() ==> text[end] == '(',
    ensures
        before_parenthesis(text) == text.take(end),
    decreases text.len() - end,
{
    if end == text.len() {
        assert(text.take(end) =~= text);
    } else {
        lemma_before_parenthesis_longer(text, end, text.len() as int);
        assert(text.take(text.len() as int) =~= text);
    }
}

proof fn lemma_before_parenthesis_longer(text: Seq<char>, end: int, len: int)
    requires
        0 <= end < len <= text.len(),
        before_parenthesis(text.take(end)) == text.take(end),
        text[end] == '(',
    ensures
        before_parenthesis(text.take(len)) == text.take(end),
    decreases len,
{
    let whole = text.take(len);
    assert(whole.drop_last() =~= text.take(len - 1));
    if len - 1 > end {
        lemma_before_parenthesis_longer(text, end, len - 1);
    }
}

/// The front of a text is what comes before its first opening parenthesis: it has none itself, and
/// ends with the text or at one.
pub proof fn law_front_ends_at_the_parenthesis(text: Seq<char>)
    ensures
        ({
            let front = before_parenthesis(text);
            &&& front.len() <= text.len()
            &&& front == text.take(front.len() as int)
            &&& forall|i: int| 0 <= i < front.len() ==> #[trigger] front[i] != '('
            &&& front.len() < text.len() ==> text[front.len() as int] == '('
        }),
    decreases text.len(),
{
    let front = before_parenthesis(text);
    if text.len() > 0 {
        let rest = text.drop_last();
        law_front_ends_at_the_parenthesis(rest);
        let before = before_parenthesis(rest);
        if before.len() < rest.len() {
            assert(text[before.len() as int] == rest[before.len() as int]);
            assert(text.take(before.len() as int) =~= rest.take(before.len() as int));
        } else {
            assert(before =~= rest);
            if text.last() == '(' {
                assert(text.take(before.len() as int) =~= rest);
            } else {
                assert(text.take(text.len() as int) =~= text);
                assert forall|i: int| 0 <= i < text.len() implies #[trigger] text[i] != '(' by {
                    if i < rest.len() {
                        assert(before[i] == text[i]);
                    }
                }
            }
        }
    } else {
        assert(text.take(0) =~= text);
    }
}

/// What is left of a text without the white space around it is determined.
pub proof fn law_trimmed_text_is_determined(text: Seq<char>, a: Seq<char>, b: Seq<char>)
    requires
        is_trimmed(text, a),
        is_trimmed(text, b),
    ensures
        a == b,
{
    let (f, t) = choose|from: int, to: int|
        {
            &&& 0 <= from <= to <= text.len()
            &&& #[trigger] text.subrange(from, to) == a
            &&& forall|i: int| 0 <= i < from ==> white_space(#[trigger] text[i])
            &&& forall|i: int| to <= i < text.len() ==> white_space(#[trigger] text[i])
            &&& from < to ==> !white_space(text[from]) && !white_space(text[to - 1])
        };
    let (g, u) = choose|from: int, to: int|
        {
            &&& 0 <= from <= to <= text.len()
            &&& #[trigger] text.subrange(from, to) == b
            &&& forall|i: int| 0 <= i < from ==> white_space(#[trigger] text[i])
            &&& forall|i: int| to <= i < text.len() ==> white_space(#[trigger] text[i])
            &&& from < to ==> !white_space(text[from]) && !white_space(text[to - 1])
        };
    if f < t {
        if g >= u {
            assert(white_space(text[f]));
        } else {
            if g < f {
                assert(white_space(text[g]));
            }
            if f < g {
                assert(white_space(text[f]));
            }
            if t < u {
                assert(white_space(text[u - 1]));
            }
            if u < t {
                assert(white_space(text[t - 1]));
            }
        }
    } else if g < u {
        assert(white_space(text[g]));
    } else {
        assert(a =~= b);
    }
}

/// What is behind the last slash of a reference is shown, whatever is in front of it; a reference
/// without a slash is shown whole.
pub proof fn law_short_reference_is_behind_the_slash(
    front: Seq<char>,
    tail: Seq<char>,
    short: Seq<char>,
)
    requires
        forall|i: int| 0 <= i < tail.len() ==> tail[i] != '/',
    ensures
        is_short(front.push('/') + tail, short) ==> short == tail,
        is_short(tail, short) ==> short == tail,
{
    let whole = front.push('/') + tail;
    if is_short(whole, short) {
        if short.len() > tail.len() {
            let i = short.len() - tail.len() - 1;
            assert(short[i] == whole[whole.len() - short.len() + i]);
            assert(whole[front.len() as int] == '/');
        } else if short.len() < tail.len() {
            let i = tail.len() - short.len() - 1;
            assert(whole[whole.len() - short.len() - 1] == tail[i]);
        }
        assert(short =~= tail);
    }
    if is_short(tail, short) {
        if short.len() < tail.len() {
            assert(tail[tail.len() - short.len() - 1] != '/');
        }
        assert(short =~= tail);
    }
}

/// The version is shown with all of its parts, each in its place.
pub proof fn law_version_shows_its_parts(
    version: Seq<char>,
    profile: Seq<char>,
    opt_level: Seq<char>,
)
    ensures
        ({
            let text = version_shown(version, profile, opt_level);
            let behind_version = 1 + version.len() as int;
            let behind_profile = behind_version + 2 + profile.len();
            let behind_level = behind_profile + 4 + opt_level.len();
            &&& text.len() == behind_level + 1
            &&& text[0] == 'v'
            &&& text.subrange(1, behind_version) == version
            &&& text.subrange(behind_version, behind_version + 2) == seq![' ', '(']
            &&& text.subrange(behind_version + 2, behind_profile) == profile
            &&& text.subrange(behind_profile, behind_profile + 4) == seq![' ', '-', ' ', 'O']
            &&& text.subrange(behind_profile + 4, behind_level) == opt_level
            &&& text[behind_level] == ')'
        }),
{
    reveal_strlit("v");
    reveal_strlit(" (");
    reveal_strlit(" - O");
    reveal_strlit(")");
    let text = version_shown(version, profile, opt_level);
    let behind_version = 1 + version.len() as int;
    let behind_profile = behind_version + 2 + profile.len();
    let behind_level = behind_profile + 4 + opt_level.len();
    assert(text.subrange(1, behind_version) =~= version);
    assert(text.subrange(behind_version, behind_version + 2) =~= seq![' ', '(']);
    assert(text.subrange(behind_version + 2, behind_profile) =~= profile);
    assert(text.subrange(behind_profile, behind_profile + 4) =~= seq![' ', '-', ' ', 'O']);
    assert(text.subrange(behind_profile + 4, behind_level) =~= opt_level);
}

/// A date is shown as `chrono` shows it; that it is not known is said only of one that `chrono` does
/// not read or does not show.
pub proof fn law_known_dates_are_shown(date: Option<(i64, u32, i32)>)
    ensures
        date matches Some((seconds, nanos, offset)) ==> (date_shown(
            seconds,
            nanos,
            offset,
            "%Y-%m-%d %H:%M:%S"@,
        ) matches Some(shown) ==> shown_or_unknown(date) == shown),
        date is None ==> shown_or_unknown(date) == "Unknown"@,
        date matches Some((seconds, nanos, offset)) ==> (date_shown(
            seconds,
            nanos,
            offset,
            "%Y-%m-%d %H:%M:%S"@,
        ) is None ==> shown_or_unknown(date) == "Unknown"@),
{
}

} // verus!
