//! Time zones: `MySQL`'s numeric offsets and the IANA names of the
//! embedded tz database, and the session zone that `NOW`, `CURDATE` and
//! `CURTIME` observe.
use crate::calendar::{buildable, valid_datetime, DateTime};
use crate::chars::{chars_of, i32_text, parse_i32, slice_chars, string_of, trim, trimmed};
use chrono::{LocalResult, NaiveDate, Offset, TimeZone};
use vstd::prelude::*;

verus! {

/// The canonical name of the tz database zone a text names, ignoring
/// ASCII case, or `None` when it names none.
pub uninterp spec fn tz_canonical_name(name: Seq<char>) -> Option<Seq<char>>;

/// The UTC offset, in seconds east, that a named zone has at a local wall
/// time: the earlier one where the wall time repeats, `None` where it
/// falls in a gap.
pub uninterp spec fn tz_local_offset(zone: Seq<char>, local: DateTime) -> Option<int>;

/// The UTC offset, in seconds east, that a named zone has at a UTC time;
/// `None` where the text names no zone of the tz database.
pub uninterp spec fn tz_utc_offset(zone: Seq<char>, utc: DateTime) -> Option<int>;

/// chrono-tz's `Tz::from_str_insensitive`, then `Tz::name`.
#[verifier::external_body]
pub(crate) fn canonical_zone_name(name: &str) -> (r: Option<String>)
    ensures
        r matches Some(s) ==> tz_canonical_name(name@) == Some(s@),
        r is None ==> tz_canonical_name(name@) is None,
{
    match chrono_tz::Tz::from_str_insensitive(name) {
        Ok(zone) => Some(zone.name().to_string()),
        Err(_) => None,
    }
}

/// chrono-tz's `TimeZone::offset_from_local_datetime` for a named zone,
/// the earlier offset of an ambiguous wall time. The result is the
/// offset's seconds east of UTC, which chrono keeps under a day.
#[verifier::external_body]
pub(crate) fn zone_offset_at_local(zone: &str, local: DateTime) -> (r: Option<i32>)
    requires
        valid_datetime(local),
    ensures
        r matches Some(o) ==> tz_local_offset(zone@, local) == Some(o as int) && -86400 < o < 86400,
        r is None ==> tz_local_offset(zone@, local) is None,
{
    let tz = match chrono_tz::Tz::from_str_insensitive(zone) { Ok(tz) => tz, Err(_) => return None };
    let date = match NaiveDate::from_ymd_opt(local.date.year, local.date.month, local.date.day) {
        Some(date) => date,
        None => return None,
    };
    let naive = match date.and_hms_nano_opt(local.hour, local.minute, local.second, local.nanos) {
        Some(naive) => naive,
        None => return None,
    };
    match tz.offset_from_local_datetime(&naive) {
        LocalResult::Single(offset) | LocalResult::Ambiguous(offset, _) => Some(offset.fix().local_minus_utc()),
        LocalResult::None => None,
    }
}

/// chrono-tz's `Tz::from_str_insensitive`, then
/// `TimeZone::offset_from_utc_datetime`, as seconds east of UTC, which
/// chrono keeps under a day; `None` when chrono-tz knows no zone of that
/// name. The time must be one chrono can build.
#[verifier::external_body]
pub(crate) fn zone_offset_at_utc(zone: &str, utc: DateTime) -> (r: Option<i32>)
    requires
        buildable(utc),
    ensures
        r matches Some(o) ==> tz_utc_offset(zone@, utc) == Some(o as int) && -86400 < o < 86400,
        r is None ==> tz_utc_offset(zone@, utc) is None,
{
    let tz = match chrono_tz::Tz::from_str_insensitive(zone) { Ok(tz) => tz, Err(_) => return None };
    let date = NaiveDate::from_ymd_opt(utc.date.year, utc.date.month, utc.date.day).expect("a valid date");
    let naive = date.and_hms_nano_opt(utc.hour, utc.minute, utc.second, utc.nanos).expect("a buildable time");
    Some(tz.offset_from_utc_datetime(&naive).fix().local_minus_utc())
}

/// A zone argument: a fixed offset in seconds east of UTC, or a zone of
/// the tz database by its canonical name.
#[derive(Debug)]
pub enum ZoneSpec {
    Fixed(i32),
    Named(String),
}

/// The view of a zone: the offset, or the canonical name's characters.
pub enum ZoneView {
    Fixed(int),
    Named(Seq<char>),
}

impl ZoneSpec {
    pub open spec fn view(&self) -> ZoneView {
        match self {
            ZoneSpec::Fixed(seconds) => ZoneView::Fixed(*seconds as int),
            ZoneSpec::Named(name) => ZoneView::Named(name@),
        }
    }
}

/// The first index of `c`, if any.
pub open spec fn first_index(s: Seq<char>, c: char) -> Option<int> {
    if exists|i: int| 0 <= i < s.len() && s[i] == c {
        Some(choose|i: int| 0 <= i < s.len() && s[i] == c && forall|j: int| 0 <= j < i ==> s[j] != c)
    } else {
        None
    }
}

/// The offset, in seconds, that `[+-]hours:minutes` names, before the
/// range check: `None` when the text is not of that shape.
pub open spec fn offset_text(t: Seq<char>) -> Option<int> {
    let rest = t.drop_first();
    match first_index(rest, ':') {
        None => None,
        Some(colon) => match (i32_text(rest.take(colon)), i32_text(rest.skip(colon + 1))) {
            (Some(hours), Some(minutes)) => if 0 <= minutes <= 59 {
                let seconds = (hours * 60 + minutes) * 60;
                Some(if t[0] == '-' { -seconds } else { seconds })
            } else {
                None
            },
            _ => None,
        },
    }
}

/// `MySQL`'s offset range, `[-13:59, +14:00]`.
pub open spec fn offset_in_range(seconds: int) -> bool {
    -14 * 3600 + 60 <= seconds <= 14 * 3600
}

/// What a zone argument names: a numeric offset within `MySQL`'s range,
/// or a zone of the tz database named in any ASCII case.
pub open spec fn zone_spec_of(text: Seq<char>) -> Option<ZoneView> {
    let t = trimmed(text);
    if t.len() > 0 && (t[0] == '+' || t[0] == '-') {
        match offset_text(t) {
            Some(seconds) => if offset_in_range(seconds) { Some(ZoneView::Fixed(seconds)) } else { None },
            None => None,
        }
    } else {
        match tz_canonical_name(t) {
            Some(name) => Some(ZoneView::Named(name)),
            None => None,
        }
    }
}

/// The first index of `c` in `s`.
pub(crate) fn find_char(s: &[char], c: char) -> (r: Option<usize>)
    ensures
        r matches Some(i) ==> first_index(s@, c) == Some(i as int) && i < s@.len(),
        r is None ==> first_index(s@, c) is None,
{
    let mut i: usize = 0;
    while i < s.len()
        invariant
            i <= s@.len(),
            forall|j: int| 0 <= j < i ==> s@[j] != c,
        decreases s@.len() - i,
    {
        if s[i] == c {
            proof {
                let w = choose|k: int| 0 <= k < s@.len() && s@[k] == c && forall|j: int| 0 <= j < k ==> s@[j] != c;
                assert(0 <= i < s@.len() && s@[i as int] == c && forall|j: int| 0 <= j < i ==> s@[j] != c);
                if w < i {
                    assert(s@[w] != c);
                } else if w > i {
                    assert(s@[i as int] != c);
                }
            }
            return Some(i);
        }
        i = i + 1;
    }
    None
}

/// The offset that `[+-]hours:minutes` names, before the range check.
pub fn parse_offset(t: &[char]) -> (r: Option<i64>)
    requires
        t@.len() > 0,
    ensures
        r matches Some(v) ==> offset_text(t@) == Some(v as int),
        r is None ==> offset_text(t@) is None,
{
    let rest = slice_chars(t, 1, t.len());
    assert(rest@ =~= t@.drop_first());
    let colon = match find_char(rest.as_slice(), ':') {
        Some(i) => i,
        None => return None,
    };
    let hours_text = slice_chars(rest.as_slice(), 0, colon);
    let minutes_text = slice_chars(rest.as_slice(), colon + 1, rest.len());
    assert(hours_text@ =~= rest@.take(colon as int));
    assert(minutes_text@ =~= rest@.skip(colon + 1));
    let hours = match parse_i32(hours_text.as_slice()) {
        Some(h) => h,
        None => return None,
    };
    let minutes = match parse_i32(minutes_text.as_slice()) {
        Some(m) => m,
        None => return None,
    };
    if minutes < 0 || minutes > 59 {
        return None;
    }
    let seconds = (hours as i64 * 60 + minutes as i64) * 60;
    if t[0] == '-' {
        Some(-seconds)
    } else {
        Some(seconds)
    }
}

/// A `CONVERT_TZ` zone argument: a numeric offset within `MySQL`'s
/// `[-13:59, +14:00]`, or an IANA name resolved case-insensitively.
pub fn timezone_spec(text: &str) -> (r: Option<ZoneSpec>)
    ensures
        r matches Some(z) ==> zone_spec_of(text@) == Some(z.view()),
        r is None ==> zone_spec_of(text@) is None,
{
    let chars = chars_of(text);
    let t = trim(chars.as_slice());
    if t.len() > 0 && (t[0] == '+' || t[0] == '-') {
        match parse_offset(t.as_slice()) {
            Some(seconds) => {
                if -14 * 3600 + 60 <= seconds && seconds <= 14 * 3600 {
                    Some(ZoneSpec::Fixed(seconds as i32))
                } else {
                    None
                }
            },
            None => None,
        }
    } else {
        let name = string_of(t.as_slice());
        match canonical_zone_name(name.as_str()) {
            Some(canonical) => Some(ZoneSpec::Named(canonical)),
            None => None,
        }
    }
}

} // verus!
