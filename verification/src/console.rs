//! Console input: from a line typed by the operator to an event for the
//! router.
//!
//! The console speaks the grammar of the request line. A line is taken
//! without the white space around it, and a line that holds nothing else
//! is no command at all.

use crate::handler::{Event, EventView};
use crate::wire::{parse_request, spec_parse_request, Message, MessageView};
use vstd::prelude::*;
use vstd::string::StrSliceExecFns;

verus! {

/// Whether `c` is white space: a character with the Unicode property
/// White_Space.
pub open spec fn is_white_space(c: char) -> bool {
    ||| '\u{9}' <= c <= '\u{d}'
    ||| c == ' '
    ||| c == '\u{85}'
    ||| c == '\u{a0}'
    ||| c == '\u{1680}'
    ||| '\u{2000}' <= c <= '\u{200a}'
    ||| c == '\u{2028}'
    ||| c == '\u{2029}'
    ||| c == '\u{202f}'
    ||| c == '\u{205f}'
    ||| c == '\u{3000}'
}

/// Where the white space that starts at `at` ends: the place of the first
/// character from `at` on that is no white space, or the length of `s`.
pub open spec fn leading_end(s: Seq<char>, at: int) -> int
    decreases s.len() - at,
{
    if 0 <= at < s.len() && is_white_space(s[at]) {
        leading_end(s, at + 1)
    } else {
        at
    }
}

/// Where the white space that ends before `end` starts: the place after
/// the last character before `end` that is no white space, or zero.
pub open spec fn trailing_start(s: Seq<char>, end: int) -> int
    decreases end,
{
    if 0 < end <= s.len() && is_white_space(s[end - 1]) {
        trailing_start(s, end - 1)
    } else {
        end
    }
}

/// The text `s` without the white space at its start and at its end.
pub open spec fn trimmed(s: Seq<char>) -> Seq<char> {
    let from = leading_end(s, 0);
    if from >= s.len() {
        Seq::empty()
    } else {
        s.subrange(from, trailing_start(s, s.len() as int))
    }
}

/// Whether `c` is white space.
fn white_space(c: char) -> (b: bool)
    ensures
        b == is_white_space(c),
{
    ('\u{9}' <= c && c <= '\u{d}') || c == ' ' || c == '\u{85}' || c == '\u{a0}' || c
        == '\u{1680}' || ('\u{2000}' <= c && c <= '\u{200a}') || c == '\u{2028}' || c
        == '\u{2029}' || c == '\u{202f}' || c == '\u{205f}' || c == '\u{3000}'
}

/// White space at the end of a text starts after its first character that
/// is none.
proof fn lemma_trailing_after_leading(s: Seq<char>, from: int, end: int)
    requires
        0 <= from < s.len(),
        !is_white_space(s[from]),
        from < end <= s.len(),
    ensures
        from < trailing_start(s, end) <= end,
    decreases end,
{
    if is_white_space(s[end - 1]) {
        lemma_trailing_after_leading(s, from, end - 1);
    }
}

/// The line without the white space around it.
pub fn trim_line(line: &str) -> (r: String)
    ensures
        r@ == trimmed(line@),
{
    let n = line.unicode_len();
    let mut from: usize = 0;
    while from < n && white_space(line.get_char(from))
        invariant
            from <= n == line@.len(),
            leading_end(line@, 0) == leading_end(line@, from as int),
        decreases n - from,
    {
        from = from + 1;
    }
    if from >= n {
        return String::new();
    }
    let mut end: usize = n;
    proof {
        lemma_trailing_after_leading(line@, from as int, n as int);
    }
    while end > from + 1 && white_space(line.get_char(end - 1))
        invariant
            from < end <= n == line@.len(),
            !is_white_space(line@[from as int]),
            trailing_start(line@, n as int) == trailing_start(line@, end as int),
        decreases end,
    {
        end = end - 1;
    }
    proof {
        if end == from + 1 {
            assert(!is_white_space(line@[end - 1]));
        }
    }
    line.substring_char(from, end).to_owned()
}

/// What a line typed at the console means to the router.
pub open spec fn event_of_line(line: Seq<char>) -> Option<EventView> {
    let command = trimmed(line);
    if command.len() == 0 {
        None
    } else {
        match spec_parse_request(command) {
            Ok(q) => Some(EventView::Message(MessageView::Request(q))),
            Err(_) => Some(EventView::Malformed),
        }
    }
}

/// Turns a line typed at the console into an event for the router: the
/// request it spells, or `Malformed` if it spells none. A line of white
/// space only gives no event.
pub fn command_event(line: &str) -> (r: Option<Event>)
    ensures
        match r {
            Some(e) => event_of_line(line@) == Some(e@),
            None => event_of_line(line@) is None,
        },
{
    let command = trim_line(line);
    if command.as_str().is_empty() {
        return None;
    }
    match parse_request(command) {
        Ok(q) => Some(Event::Message(Message::Request(q))),
        Err(_) => Some(Event::Malformed),
    }
}

} // verus!
