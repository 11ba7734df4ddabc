//! The session time zone that `NOW`, `CURDATE` and `CURTIME` observe: what
//! a `SET time_zone` value installs, and the key that tells two sessions'
//! clocks apart. The per-thread slot that holds the installed zone is the
//! caller's.
use crate::chars::{
    chars_of, push_all, push_signed_decimal, signed_decimal, string_of, trim, trimmed,
};
use crate::zone::{canonical_zone_name, offset_in_range, offset_text, tz_canonical_name};
use vstd::prelude::*;

verus! {

/// An installed session zone: a fixed offset in seconds east of UTC, or a
/// zone of the tz database by its canonical name.
pub enum SessionZone {
    Fixed(i32),
    Named(String),
}

/// What a `SET time_zone` value does.
pub enum SessionChange {
    /// Restore the host zone, and store TIMESTAMP values unconverted.
    Reset,
    /// Install a zone; TIMESTAMP values convert through `timestamp_zone`,
    /// or not at all when it is `None`.
    Install { zone: SessionZone, timestamp_zone: Option<String> },
    /// An unknown or out-of-range zone: the previous setting stays.
    Reject,
}

/// The view of a session zone.
pub enum SessionZoneView {
    Fixed(int),
    Named(Seq<char>),
}

/// The view of a session change.
pub enum SessionChangeView {
    Reset,
    Install { zone: SessionZoneView, timestamp_zone: Option<Seq<char>> },
    Reject,
}

impl SessionZone {
    pub open spec fn view(&self) -> SessionZoneView {
        match self {
            SessionZone::Fixed(seconds) => SessionZoneView::Fixed(*seconds as int),
            SessionZone::Named(name) => SessionZoneView::Named(name@),
        }
    }
}

impl SessionChange {
    pub open spec fn view(&self) -> SessionChangeView {
        match self {
            SessionChange::Reset => SessionChangeView::Reset,
            SessionChange::Install { zone, timestamp_zone } => SessionChangeView::Install {
                zone: zone.view(),
                timestamp_zone: match timestamp_zone {
                    Some(text) => Some(text@),
                    None => None,
                },
            },
            SessionChange::Reject => SessionChangeView::Reject,
        }
    }
}

/// The identity of an installed zone: `f` and the offset in seconds, or
/// `n` and the zone's name.
pub open spec fn zone_key(zone: SessionZoneView) -> Seq<char> {
    match zone {
        SessionZoneView::Fixed(seconds) => seq!['f'] + signed_decimal(seconds),
        SessionZoneView::Named(name) => seq!['n'] + name,
    }
}

/// The installed session zone's identity, or `None` for the host zone.
///
/// Two executions observe the same clock offset only when this matches, so
/// a caller deciding whether one execution can answer another's request
/// puts this in the comparison.
pub fn session_time_zone_key(zone: Option<&SessionZone>) -> (r: Option<String>)
    ensures
        zone is None ==> r is None,
        zone matches Some(z) ==> r matches Some(key) && key@ == zone_key(z.view()),
{
    match zone {
        None => None,
        Some(SessionZone::Fixed(seconds)) => {
            let mut out: Vec<char> = Vec::new();
            out.push('f');
            push_signed_decimal(&mut out, *seconds as i64);
            assert(out@ =~= zone_key(zone.unwrap().view()));
            Some(string_of(out.as_slice()))
        },
        Some(SessionZone::Named(name)) => {
            let mut out: Vec<char> = Vec::new();
            out.push('n');
            let chars = chars_of(name.as_str());
            push_all(&mut out, chars.as_slice());
            assert(out@ =~= zone_key(zone.unwrap().view()));
            Some(string_of(out.as_slice()))
        },
    }
}

/// ASCII lower case.
pub open spec fn ascii_lower(c: char) -> char {
    if 'A' <= c <= 'Z' { ((c as u32) + 32) as char } else { c }
}

/// `str::eq_ignore_ascii_case`.
pub open spec fn eq_ignoring_ascii_case(a: Seq<char>, b: Seq<char>) -> bool {
    a.len() == b.len() && forall|i: int| 0 <= i < a.len() ==> ascii_lower(#[trigger] a[i]) == ascii_lower(b[i])
}

/// What a `SET time_zone` value does: `None` or "SYSTEM" (any case)
/// restores the host zone; a numeric offset in `MySQL`'s `[-13:59, +14:00]`
/// or a tz database name (any case) installs that zone; anything else is
/// rejected. Stored TIMESTAMP values are UTC, so only an offset other than
/// zero, or a named zone, converts them.
pub open spec fn session_change_of(zone: Option<Seq<char>>) -> SessionChangeView {
    match zone {
        None => SessionChangeView::Reset,
        Some(text) => {
            let t = trimmed(text);
            if eq_ignoring_ascii_case(t, "system"@) {
                SessionChangeView::Reset
            } else if t.len() > 0 && (t[0] == '+' || t[0] == '-') {
                match offset_text(t) {
                    Some(seconds) => if offset_in_range(seconds) {
                        SessionChangeView::Install {
                            zone: SessionZoneView::Fixed(seconds),
                            timestamp_zone: if seconds != 0 { Some(t) } else { None },
                        }
                    } else {
                        SessionChangeView::Reject
                    },
                    None => SessionChangeView::Reject,
                }
            } else {
                match tz_canonical_name(t) {
                    Some(name) => SessionChangeView::Install {
                        zone: SessionZoneView::Named(name),
                        timestamp_zone: Some(name),
                    },
                    None => SessionChangeView::Reject,
                }
            }
        },
    }
}

/// `str::eq_ignore_ascii_case` over characters.
fn equal_ignoring_ascii_case(a: &[char], b: &[char]) -> (r: bool)
    ensures
        r == eq_ignoring_ascii_case(a@, b@),
{
    if a.len() != b.len() {
        return false;
    }
    let mut i: usize = 0;
    while i < a.len()
        invariant
            i <= a@.len(),
            a@.len() == b@.len(),
            forall|j: int| 0 <= j < i ==> ascii_lower(#[trigger] a@[j]) == ascii_lower(b@[j]),
        decreases a@.len() - i,
    {
        let x = a[i];
        let y = b[i];
        let lx: u32 = if 'A' <= x && x <= 'Z' { (x as u32) + 32 } else { x as u32 };
        let ly: u32 = if 'A' <= y && y <= 'Z' { (y as u32) + 32 } else { y as u32 };
        assert(lx == ascii_lower(x) as u32 && ly == ascii_lower(y) as u32);
        if lx != ly {
            return false;
        }
        i = i + 1;
    }
    true
}

/// What a `SET time_zone` value does to the session; the caller installs
/// the result.
pub fn session_zone_change(zone: Option<&str>) -> (r: SessionChange)
    ensures
        r.view() == session_change_of(
            match zone {
                Some(text) => Some(text@),
                None => None,
            },
        ),
{
    let text = match zone {
        None => return SessionChange::Reset,
        Some(text) => text,
    };
    let chars = chars_of(text);
    let t = trim(chars.as_slice());
    let system = chars_of("system");
    if equal_ignoring_ascii_case(t.as_slice(), system.as_slice()) {
        return SessionChange::Reset;
    }
    if t.len() > 0 && (t[0] == '+' || t[0] == '-') {
        return match crate::zone::parse_offset(t.as_slice()) {
            Some(seconds) => {
                if -14 * 3600 + 60 <= seconds && seconds <= 14 * 3600 {
                    let timestamp_zone = if seconds != 0 {
                        Some(string_of(t.as_slice()))
                    } else {
                        None
                    };
                    SessionChange::Install { zone: SessionZone::Fixed(seconds as i32), timestamp_zone }
                } else {
                    SessionChange::Reject
                }
            },
            None => SessionChange::Reject,
        };
    }
    let name = string_of(t.as_slice());
    match canonical_zone_name(name.as_str()) {
        Some(canonical) => {
            let timestamp_zone = Some(string_of(chars_of(canonical.as_str()).as_slice()));
            SessionChange::Install { zone: SessionZone::Named(canonical), timestamp_zone }
        },
        None => SessionChange::Reject,
    }
}

} // verus!
