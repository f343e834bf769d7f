//! Helpers of the user interface that need no terminal: centring a box on a
//! screen of known size, wording durations, and telling which input event
//! ends a wait for a key.

use vstd::prelude::*;
use vstd::string::StringExecFns;
use crate::dims::Dims;
use crate::helpers::{box_center, centered};

verus! {

/// The top left corner of a box of extent `box_dims` centred on a screen of
/// `term_size` columns and rows.
pub fn box_center_screen(box_dims: Dims, term_size: (u16, u16)) -> (corner: Dims)
    ensures
        corner.0 == centered(0, term_size.0 as int, box_dims.0 as int),
        corner.1 == centered(0, term_size.1 as int, box_dims.1 as int),
{
    box_center(Dims(0, 0), Dims(term_size.0 as i32, term_size.1 as i32), box_dims)
}

/// The ten digits.
pub open spec fn digits() -> Seq<char> {
    "0123456789"@
}

/// The decimal numeral of `n`, without leading zeros.
pub open spec fn decimal(n: nat) -> Seq<char>
    decreases n,
{
    if n < 10 {
        seq![digits()[n as int]]
    } else {
        decimal(n / 10).push(digits()[(n % 10) as int])
    }
}

/// The wording of a duration of `secs` seconds in minutes and seconds: the
/// whole minutes, then `seconds`, the numeral for the seconds beyond the last
/// whole minute.
pub open spec fn minutes_text(secs: u64, seconds: Seq<char>) -> Seq<char> {
    decimal((secs / 60) as nat) + "m"@ + seconds + "s"@
}

/// Number of seconds in a day.
pub const SECONDS_PER_DAY: u64 = 86400;

/// The wording of a duration of `secs` seconds in whole days.
pub open spec fn days_text(secs: u64) -> Seq<char> {
    decimal((secs / SECONDS_PER_DAY) as nat) + " days"@
}

fn digit_str(d: u64) -> (s: &'static str)
    requires
        d < 10,
    ensures
        s@ == seq![digits()[d as int]],
{
    proof {
        reveal_strlit("0123456789");
        reveal_strlit("0");
        reveal_strlit("1");
        reveal_strlit("2");
        reveal_strlit("3");
        reveal_strlit("4");
        reveal_strlit("5");
        reveal_strlit("6");
        reveal_strlit("7");
        reveal_strlit("8");
        reveal_strlit("9");
    }
    let s = match d {
        0 => "0",
        1 => "1",
        2 => "2",
        3 => "3",
        4 => "4",
        5 => "5",
        6 => "6",
        7 => "7",
        8 => "8",
        _ => "9",
    };
    assert(s@ =~= seq![digits()[d as int]]);
    s
}

/// The decimal numeral of `n`.
pub fn decimal_string(n: u64) -> (s: String)
    ensures
        s@ == decimal(n as nat),
    decreases n,
{
    if n < 10 {
        digit_str(n).to_owned()
    } else {
        let mut s = decimal_string(n / 10);
        s.append(digit_str(n % 10));
        assert(s@ =~= decimal(n as nat));
        s
    }
}

/// Words a duration of `secs` seconds in minutes and seconds.  The numeral
/// for the seconds beyond the last whole minute is handed in as `seconds`.
pub fn format_duration(secs: u64, seconds: &str) -> (text: String)
    ensures
        text@ == minutes_text(secs, seconds@),
{
    let mut text = decimal_string(secs / 60);
    text.append("m");
    text.append(seconds);
    text.append("s");
    text
}

/// Words a duration of `secs` seconds as a number of whole days.
pub fn format_days_duration(secs: u64) -> (text: String)
    ensures
        text@ == days_text(secs),
{
    let mut text = decimal_string(secs / SECONDS_PER_DAY);
    text.append(" days");
    text
}

/// The phase of a key stroke that a key event tells of.
#[derive(Clone, Copy, Debug, PartialEq, Eq, Structural)]
pub enum KeyPhase {
    Press,
    Repeat,
    Release,
}

/// What an input event means to someone who waits for a key: `None` for an
/// event that is no key event, else the key and the phase of the stroke.
pub type KeyInput<K> = Option<(K, KeyPhase)>;

/// The key that ends a wait for a key, if the event ends it: the key of a key
/// event that does not tell of the release of the key.
pub open spec fn awaited_key<K>(event: KeyInput<K>) -> Option<K> {
    match event {
        Some((code, phase)) => if phase == KeyPhase::Release {
            None
        } else {
            Some(code)
        },
        None => None,
    }
}

/// Whether a key event of phase `phase` tells of the release of the key.
pub fn is_release(phase: KeyPhase) -> (release: bool)
    ensures
        release == (phase == KeyPhase::Release),
{
    match phase {
        KeyPhase::Release => true,
        _ => false,
    }
}

/// Decides whether `event` ends a wait for a key, and with which key.  Key
/// releases and events that are no key events are passed over.
pub fn key_pressed<K>(event: KeyInput<K>) -> (key: Option<K>)
    ensures
        key == awaited_key(event),
{
    match event {
        Some((code, phase)) => if is_release(phase) {
            None
        } else {
            Some(code)
        },
        None => None,
    }
}

} // verus!
