//! Switches and numbers as the environment states them.
use vstd::prelude::*;

use crate::text;
use crate::tokenizer::chat;
use crate::tokenizer::chat::Dialect;

verus! {

/// A switch: off where it reads `0`, `false`, `no`, `off` or nothing, on where
/// it reads anything else; `None` where it is not set.
pub open spec fn switch(s: Option<Seq<char>>) -> Option<bool> {
    match s {
        None => None,
        Some(t) => {
            let w = text::lowered(text::trim(t));
            Some(
                !(w == "0"@ || w == "false"@ || w == "no"@ || w == "off"@ || w
                    == Seq::<char>::empty()),
            )
        },
    }
}

pub fn env_flag(value: Option<&str>) -> (r: Option<bool>)
    ensures
        r == switch(chat::chars_of(value)),
{
    match value {
        None => None,
        Some(s) => {
            let v: Vec<char> = text::trimmed(&text::to_chars(s));
            let w: String = text::lower_case(text::to_string(&v).as_str());
            let t: &str = w.as_str();
            proof {
                reveal_strlit("");
                assert(""@ =~= Seq::<char>::empty());
            }
            Some(
                !(text::same(t, "0") || text::same(t, "false") || text::same(t, "no")
                    || text::same(t, "off") || text::same(t, "")),
            )
        },
    }
}

/// A feature is turned off where its switch reads `1`, and only there.
pub fn turned_off(value: Option<&str>) -> (r: bool)
    ensures
        r == (chat::chars_of(value) == Some("1"@)),
{
    match value {
        Some(s) => text::same(s, "1"),
        None => false,
    }
}

/// The dialect that a chat is held to, if one is named.
pub fn forced_dialect(value: Option<&str>) -> (r: Option<Dialect>)
    ensures
        r == (if chat::chars_of(value) == Some("classic"@) {
            Some(Dialect::Classic)
        } else if chat::chars_of(value) == Some("turn"@) {
            Some(Dialect::Turn)
        } else {
            None
        }),
{
    match value {
        None => None,
        Some(s) => {
            if text::same(s, "classic") {
                Some(Dialect::Classic)
            } else if text::same(s, "turn") {
                Some(Dialect::Turn)
            } else {
                None
            }
        },
    }
}

/// A number of the environment; `None` where it is not set or no number.
pub fn number_of(value: Option<&str>) -> (r: Option<usize>)
    ensures
        r == (match chat::chars_of(value) {
            Some(s) => text::number(s),
            None => None,
        }),
{
    match value {
        None => None,
        Some(s) => {
            let v: Vec<char> = text::to_chars(s);
            assert(v@.subrange(0, v@.len() as int) =~= v@);
            text::parse_number(&v, 0, v.len())
        },
    }
}

} // verus!
