//! What the browser shows, as plain values: glyphs, tones, list entries,
//! breadcrumbs and the lines of a ticket's detail view. Drawing them on a
//! terminal is left to the caller.
use vstd::prelude::*;

use crate::app::{App, AppView};
use crate::external::{lowercase, to_lowercase};
use crate::model::{JsonField, Section, SectionContent, SectionItem, Ticket};
use crate::text::{chars_of, extend, lines, seqs_of, split_lines, string_of};

verus! {

/// A colour role.
#[derive(Debug, Clone, Copy, PartialEq, Eq, Structural)]
pub enum Tone {
    Green,
    Yellow,
    Red,
    Magenta,
    Gray,
    Cyan,
    LightRed,
    Blue,
    DarkGray,
}

/// `s` is the literal `lit`.
fn is_lit(s: &[char], lit: &str) -> (r: bool)
    ensures
        r == (s@ == lit@),
{
    let l = chars_of(lit);
    if s.len() != l.len() {
        return false;
    }
    let mut i: usize = 0;
    while i < s.len()
        invariant
            i <= s.len(),
            s.len() == l.len(),
            l@ == lit@,
            forall|j: int| 0 <= j < i ==> s@[j] == l@[j],
        decreases s.len() - i,
    {
        if s[i] != l[i] {
            assert(s@[i as int] != l@[i as int]);
            assert(s@ != l@);
            assert(s@ != lit@);
            return false;
        }
        i = i + 1;
    }
    assert(s@ =~= l@);
    true
}

pub open spec fn is_done_word(l: Seq<char>) -> bool {
    l == "done"@ || l == "complete"@ || l == "completed"@ || l == "closed"@
}

/// Glyph and tone of a status, by its lowercase form.
pub open spec fn status_glyph_spec(l: Seq<char>) -> (Seq<char>, Tone) {
    if is_done_word(l) {
        ("●"@, Tone::Green)
    } else if l == "doing"@ || l == "in_progress"@ || l == "in-progress"@ || l == "wip"@ || l
        == "active"@ {
        ("◐"@, Tone::Yellow)
    } else if l == "blocked"@ || l == "block"@ {
        ("⊘"@, Tone::Red)
    } else if l == "review"@ || l == "in_review"@ {
        ("◑"@, Tone::Magenta)
    } else if l == "todo"@ || l == "open"@ || l.len() == 0 {
        ("○"@, Tone::Gray)
    } else {
        ("◇"@, Tone::Cyan)
    }
}

/// Tone of a priority, by its lowercase form.
pub open spec fn priority_tone_spec(l: Seq<char>) -> Tone {
    if l == "critical"@ || l == "urgent"@ || l == "p0"@ {
        Tone::Red
    } else if l == "high"@ || l == "p1"@ {
        Tone::LightRed
    } else if l == "medium"@ || l == "med"@ || l == "p2"@ {
        Tone::Yellow
    } else if l == "low"@ || l == "p3"@ {
        Tone::Blue
    } else {
        Tone::DarkGray
    }
}

/// Statuses group by meaning, each group with its own glyph and tone:
/// `todo`, `open` and no status are open (`○`, gray); `done`, `complete`,
/// `completed`, `closed` are finished (`●`, green); `doing`, `in_progress`,
/// `in-progress`, `wip`, `active` are in progress (`◐`, yellow);
/// `blocked`, `block` are blocked (`⊘`, red); `review`, `in_review` are in
/// review (`◑`, magenta); any other status is unknown (`◇`, cyan). Two
/// statuses look alike exactly when they are in the same group.
pub proof fn law_status_groups(l: Seq<char>)
    ensures
        (l == "todo"@ || l == "open"@ || l.len() == 0) <==> status_glyph_spec(l) == ("○"@, Tone::Gray),
        (l == "done"@ || l == "complete"@ || l == "completed"@ || l == "closed"@) <==> status_glyph_spec(l) == ("●"@, Tone::Green),
        (l == "doing"@ || l == "in_progress"@ || l == "in-progress"@ || l == "wip"@ || l == "active"@) <==> status_glyph_spec(l) == ("◐"@, Tone::Yellow),
        (l == "blocked"@ || l == "block"@) <==> status_glyph_spec(l) == ("⊘"@, Tone::Red),
        (l == "review"@ || l == "in_review"@) <==> status_glyph_spec(l) == ("◑"@, Tone::Magenta),
        status_glyph_spec(l) == ("○"@, Tone::Gray) || status_glyph_spec(l) == ("●"@, Tone::Green)
            || status_glyph_spec(l) == ("◐"@, Tone::Yellow) || status_glyph_spec(l) == ("⊘"@, Tone::Red)
            || status_glyph_spec(l) == ("◑"@, Tone::Magenta) || status_glyph_spec(l) == ("◇"@, Tone::Cyan),
        is_done_word(l) <==> status_glyph_spec(l) == status_glyph_spec("done"@),
        status_glyph_spec(l) == status_glyph_spec(Seq::empty()) <==> status_glyph_spec(l).1 == Tone::Gray,
{
    reveal_strlit("done");
    reveal_strlit("complete");
    reveal_strlit("completed");
    reveal_strlit("closed");
    reveal_strlit("doing");
    reveal_strlit("in_progress");
    reveal_strlit("in-progress");
    reveal_strlit("wip");
    reveal_strlit("active");
    reveal_strlit("blocked");
    reveal_strlit("block");
    reveal_strlit("review");
    reveal_strlit("in_review");
    reveal_strlit("todo");
    reveal_strlit("open");
    reveal_strlit("●");
    reveal_strlit("◐");
    reveal_strlit("⊘");
    reveal_strlit("◑");
    reveal_strlit("○");
    reveal_strlit("◇");
    reveal_strlit("critical");
    reveal_strlit("urgent");
    reveal_strlit("p0");
    reveal_strlit("high");
    reveal_strlit("p1");
    reveal_strlit("medium");
    reveal_strlit("med");
    reveal_strlit("p2");
    reveal_strlit("low");
    reveal_strlit("p3");
    assert("done"@.len() == 4 && "done"@[0] == 'd' && "done"@[1] == 'o' && "done"@[2] == 'n');
    assert("complete"@.len() == 8 && "complete"@[0] == 'c' && "complete"@[1] == 'o' && "complete"@[2] == 'm');
    assert("completed"@.len() == 9 && "completed"@[0] == 'c' && "completed"@[1] == 'o' && "completed"@[2] == 'm');
    assert("closed"@.len() == 6 && "closed"@[0] == 'c' && "closed"@[1] == 'l' && "closed"@[2] == 'o');
    assert("doing"@.len() == 5 && "doing"@[0] == 'd' && "doing"@[1] == 'o' && "doing"@[2] == 'i');
    assert("in_progress"@.len() == 11 && "in_progress"@[0] == 'i' && "in_progress"@[1] == 'n' && "in_progress"@[2] == '_');
    assert("in-progress"@.len() == 11 && "in-progress"@[0] == 'i' && "in-progress"@[1] == 'n' && "in-progress"@[2] == '-');
    assert("wip"@.len() == 3 && "wip"@[0] == 'w' && "wip"@[1] == 'i' && "wip"@[2] == 'p');
    assert("active"@.len() == 6 && "active"@[0] == 'a' && "active"@[1] == 'c' && "active"@[2] == 't');
    assert("blocked"@.len() == 7 && "blocked"@[0] == 'b' && "blocked"@[1] == 'l' && "blocked"@[2] == 'o');
    assert("block"@.len() == 5 && "block"@[0] == 'b' && "block"@[1] == 'l' && "block"@[2] == 'o');
    assert("review"@.len() == 6 && "review"@[0] == 'r' && "review"@[1] == 'e' && "review"@[2] == 'v');
    assert("in_review"@.len() == 9 && "in_review"@[0] == 'i' && "in_review"@[1] == 'n' && "in_review"@[2] == '_');
    assert("todo"@.len() == 4 && "todo"@[0] == 't' && "todo"@[1] == 'o' && "todo"@[2] == 'd');
    assert("open"@.len() == 4 && "open"@[0] == 'o' && "open"@[1] == 'p' && "open"@[2] == 'e');
    assert("●"@.len() == 1 && "●"@[0] == '●');
    assert("◐"@.len() == 1 && "◐"@[0] == '◐');
    assert("⊘"@.len() == 1 && "⊘"@[0] == '⊘');
    assert("◑"@.len() == 1 && "◑"@[0] == '◑');
    assert("○"@.len() == 1 && "○"@[0] == '○');
    assert("◇"@.len() == 1 && "◇"@[0] == '◇');
    assert("critical"@.len() == 8 && "critical"@[0] == 'c' && "critical"@[1] == 'r' && "critical"@[2] == 'i');
    assert("urgent"@.len() == 6 && "urgent"@[0] == 'u' && "urgent"@[1] == 'r' && "urgent"@[2] == 'g');
    assert("p0"@.len() == 2 && "p0"@[0] == 'p' && "p0"@[1] == '0');
    assert("high"@.len() == 4 && "high"@[0] == 'h' && "high"@[1] == 'i' && "high"@[2] == 'g');
    assert("p1"@.len() == 2 && "p1"@[0] == 'p' && "p1"@[1] == '1');
    assert("medium"@.len() == 6 && "medium"@[0] == 'm' && "medium"@[1] == 'e' && "medium"@[2] == 'd');
    assert("med"@.len() == 3 && "med"@[0] == 'm' && "med"@[1] == 'e' && "med"@[2] == 'd');
    assert("p2"@.len() == 2 && "p2"@[0] == 'p' && "p2"@[1] == '2');
    assert("low"@.len() == 3 && "low"@[0] == 'l' && "low"@[1] == 'o' && "low"@[2] == 'w');
    assert("p3"@.len() == 2 && "p3"@[0] == 'p' && "p3"@[1] == '3');
}

/// Priorities group by urgency, each group with its own tone: `critical`,
/// `urgent`, `p0` red; `high`, `p1` light red; `medium`, `med`, `p2`
/// yellow; `low`, `p3` blue; anything else dark gray.
pub proof fn law_priority_groups(l: Seq<char>)
    ensures
        (l == "critical"@ || l == "urgent"@ || l == "p0"@) <==> priority_tone_spec(l) == Tone::Red,
        (l == "high"@ || l == "p1"@) <==> priority_tone_spec(l) == Tone::LightRed,
        (l == "medium"@ || l == "med"@ || l == "p2"@) <==> priority_tone_spec(l) == Tone::Yellow,
        (l == "low"@ || l == "p3"@) <==> priority_tone_spec(l) == Tone::Blue,
        priority_tone_spec(l) == Tone::Red || priority_tone_spec(l) == Tone::LightRed
            || priority_tone_spec(l) == Tone::Yellow || priority_tone_spec(l) == Tone::Blue
            || priority_tone_spec(l) == Tone::DarkGray,
{
    reveal_strlit("done");
    reveal_strlit("complete");
    reveal_strlit("completed");
    reveal_strlit("closed");
    reveal_strlit("doing");
    reveal_strlit("in_progress");
    reveal_strlit("in-progress");
    reveal_strlit("wip");
    reveal_strlit("active");
    reveal_strlit("blocked");
    reveal_strlit("block");
    reveal_strlit("review");
    reveal_strlit("in_review");
    reveal_strlit("todo");
    reveal_strlit("open");
    reveal_strlit("●");
    reveal_strlit("◐");
    reveal_strlit("⊘");
    reveal_strlit("◑");
    reveal_strlit("○");
    reveal_strlit("◇");
    reveal_strlit("critical");
    reveal_strlit("urgent");
    reveal_strlit("p0");
    reveal_strlit("high");
    reveal_strlit("p1");
    reveal_strlit("medium");
    reveal_strlit("med");
    reveal_strlit("p2");
    reveal_strlit("low");
    reveal_strlit("p3");
    assert("done"@.len() == 4 && "done"@[0] == 'd' && "done"@[1] == 'o' && "done"@[2] == 'n');
    assert("complete"@.len() == 8 && "complete"@[0] == 'c' && "complete"@[1] == 'o' && "complete"@[2] == 'm');
    assert("completed"@.len() == 9 && "completed"@[0] == 'c' && "completed"@[1] == 'o' && "completed"@[2] == 'm');
    assert("closed"@.len() == 6 && "closed"@[0] == 'c' && "closed"@[1] == 'l' && "closed"@[2] == 'o');
    assert("doing"@.len() == 5 && "doing"@[0] == 'd' && "doing"@[1] == 'o' && "doing"@[2] == 'i');
    assert("in_progress"@.len() == 11 && "in_progress"@[0] == 'i' && "in_progress"@[1] == 'n' && "in_progress"@[2] == '_');
    assert("in-progress"@.len() == 11 && "in-progress"@[0] == 'i' && "in-progress"@[1] == 'n' && "in-progress"@[2] == '-');
    assert("wip"@.len() == 3 && "wip"@[0] == 'w' && "wip"@[1] == 'i' && "wip"@[2] == 'p');
    assert("active"@.len() == 6 && "active"@[0] == 'a' && "active"@[1] == 'c' && "active"@[2] == 't');
    assert("blocked"@.len() == 7 && "blocked"@[0] == 'b' && "blocked"@[1] == 'l' && "blocked"@[2] == 'o');
    assert("block"@.len() == 5 && "block"@[0] == 'b' && "block"@[1] == 'l' && "block"@[2] == 'o');
    assert("review"@.len() == 6 && "review"@[0] == 'r' && "review"@[1] == 'e' && "review"@[2] == 'v');
    assert("in_review"@.len() == 9 && "in_review"@[0] == 'i' && "in_review"@[1] == 'n' && "in_review"@[2] == '_');
    assert("todo"@.len() == 4 && "todo"@[0] == 't' && "todo"@[1] == 'o' && "todo"@[2] == 'd');
    assert("open"@.len() == 4 && "open"@[0] == 'o' && "open"@[1] == 'p' && "open"@[2] == 'e');
    assert("●"@.len() == 1 && "●"@[0] == '●');
    assert("◐"@.len() == 1 && "◐"@[0] == '◐');
    assert("⊘"@.len() == 1 && "⊘"@[0] == '⊘');
    assert("◑"@.len() == 1 && "◑"@[0] == '◑');
    assert("○"@.len() == 1 && "○"@[0] == '○');
    assert("◇"@.len() == 1 && "◇"@[0] == '◇');
    assert("critical"@.len() == 8 && "critical"@[0] == 'c' && "critical"@[1] == 'r' && "critical"@[2] == 'i');
    assert("urgent"@.len() == 6 && "urgent"@[0] == 'u' && "urgent"@[1] == 'r' && "urgent"@[2] == 'g');
    assert("p0"@.len() == 2 && "p0"@[0] == 'p' && "p0"@[1] == '0');
    assert("high"@.len() == 4 && "high"@[0] == 'h' && "high"@[1] == 'i' && "high"@[2] == 'g');
    assert("p1"@.len() == 2 && "p1"@[0] == 'p' && "p1"@[1] == '1');
    assert("medium"@.len() == 6 && "medium"@[0] == 'm' && "medium"@[1] == 'e' && "medium"@[2] == 'd');
    assert("med"@.len() == 3 && "med"@[0] == 'm' && "med"@[1] == 'e' && "med"@[2] == 'd');
    assert("p2"@.len() == 2 && "p2"@[0] == 'p' && "p2"@[1] == '2');
    assert("low"@.len() == 3 && "low"@[0] == 'l' && "low"@[1] == 'o' && "low"@[2] == 'w');
    assert("p3"@.len() == 2 && "p3"@[0] == 'p' && "p3"@[1] == '3');
}

/// Glyph and tone shown for a status.
pub fn status_glyph(status: &str) -> (r: (&'static str, Tone))
    ensures
        (r.0@, r.1) == status_glyph_spec(lowercase(status@)),
{
    let l = to_lowercase(status);
    let c = chars_of(l.as_str());
    let s = c.as_slice();
    if is_lit(s, "done") || is_lit(s, "complete") || is_lit(s, "completed") || is_lit(s, "closed") {
        ("●", Tone::Green)
    } else if is_lit(s, "doing") || is_lit(s, "in_progress") || is_lit(s, "in-progress") || is_lit(
        s,
        "wip",
    ) || is_lit(s, "active") {
        ("◐", Tone::Yellow)
    } else if is_lit(s, "blocked") || is_lit(s, "block") {
        ("⊘", Tone::Red)
    } else if is_lit(s, "review") || is_lit(s, "in_review") {
        ("◑", Tone::Magenta)
    } else if is_lit(s, "todo") || is_lit(s, "open") || s.len() == 0 {
        ("○", Tone::Gray)
    } else {
        ("◇", Tone::Cyan)
    }
}

/// Tone shown for a priority.
pub fn priority_color(priority: &str) -> (r: Tone)
    ensures
        r == priority_tone_spec(lowercase(priority@)),
{
    let l = to_lowercase(priority);
    let c = chars_of(l.as_str());
    let s = c.as_slice();
    if is_lit(s, "critical") || is_lit(s, "urgent") || is_lit(s, "p0") {
        Tone::Red
    } else if is_lit(s, "high") || is_lit(s, "p1") {
        Tone::LightRed
    } else if is_lit(s, "medium") || is_lit(s, "med") || is_lit(s, "p2") {
        Tone::Yellow
    } else if is_lit(s, "low") || is_lit(s, "p3") {
        Tone::Blue
    } else {
        Tone::DarkGray
    }
}

/// Whether a status means the ticket is finished.
pub fn is_done(status: &str) -> (r: bool)
    ensures
        r == is_done_word(lowercase(status@)),
{
    let l = to_lowercase(status);
    let c = chars_of(l.as_str());
    let s = c.as_slice();
    is_lit(s, "done") || is_lit(s, "complete") || is_lit(s, "completed") || is_lit(s, "closed")
}

/// The value under a key is that of the first pair with the key; there is
/// none exactly when no pair has the key.
pub proof fn law_field_of_first(pairs: Seq<(String, JsonField)>, key: Seq<char>)
    ensures
        field_of(pairs, key) is None <==> forall|i: int| 0 <= i < pairs.len() ==> (#[trigger] pairs[i]).0@ != key,
        field_of(pairs, key) is Some ==> exists|i: int|
            0 <= i < pairs.len() && (#[trigger] pairs[i]).0@ == key && field_of(pairs, key) == Some(pairs[i].1)
                && forall|j: int| 0 <= j < i ==> pairs[j].0@ != key,
    decreases pairs.len(),
{
    if pairs.len() > 0 {
        let t = pairs.drop_first();
        law_field_of_first(t, key);
        if pairs[0].0@ == key {
            assert(pairs[0].0@ == key);
        } else {
            assert forall|i: int| 0 <= i < t.len() implies #[trigger] t[i] == pairs[i + 1] by {}
            if field_of(t, key) is Some {
                let i = choose|i: int|
                    0 <= i < t.len() && (#[trigger] t[i]).0@ == key && field_of(t, key) == Some(t[i].1)
                        && forall|j: int| 0 <= j < i ==> t[j].0@ != key;
                assert(pairs[i + 1] == t[i]);
                assert forall|j: int| 0 <= j < i + 1 implies pairs[j].0@ != key by {
                    if j > 0 {
                        assert(pairs[j] == t[j - 1]);
                    }
                }
            } else {
                assert forall|i: int| 0 <= i < pairs.len() implies (#[trigger] pairs[i]).0@ != key by {
                    if i > 0 {
                        assert(pairs[i] == t[i - 1]);
                    }
                }
            }
        }
    }
}

/// A checklist element is checked by its `checked` flag when it has one,
/// else by its `done` flag; a flag that is not a boolean, or none, leaves it
/// unchecked. Its text is its `text` string, else its `title` string, else
/// empty.
pub proof fn law_check_item(pairs: Seq<(String, JsonField)>)
    ensures
        field_of(pairs, "checked"@) matches Some(JsonField::Bool(b)) ==> item_checked(pairs) == b,
        field_of(pairs, "checked"@) is None ==> (field_of(pairs, "done"@) matches Some(
            JsonField::Bool(b),
        ) ==> item_checked(pairs) == b),
        item_checked(pairs) ==> field_of(pairs, "checked"@) == Some(JsonField::Bool(true))
            || (field_of(pairs, "checked"@) is None && field_of(pairs, "done"@) == Some(
            JsonField::Bool(true),
        )),
        field_of(pairs, "text"@) matches Some(JsonField::Text(t)) ==> item_text(pairs) == t@,
        field_of(pairs, "text"@) is None ==> (field_of(pairs, "title"@) matches Some(
            JsonField::Text(t),
        ) ==> item_text(pairs) == t@),
        item_text(pairs).len() > 0 ==> (field_of(pairs, "text"@) matches Some(JsonField::Text(_)))
            || (field_of(pairs, "text"@) is None && field_of(pairs, "title"@) matches Some(
            JsonField::Text(_),
        )),
{
}

/// One line of a rendered section.
#[derive(Debug)]
pub enum SectionLine {
    /// A line of a text section, indented by two spaces.
    Text(String),
    /// A list element: numbered from 1 in a numbered section, else bulleted.
    Bullet { number: Option<usize>, text: String },
    /// A checklist element.
    Check { checked: bool, text: String },
}

/// The value stored under `key` in an object's pairs: the first pair with
/// that key.
pub open spec fn field_of(pairs: Seq<(String, JsonField)>, key: Seq<char>) -> Option<JsonField>
    decreases pairs.len(),
{
    if pairs.len() == 0 {
        None
    } else if pairs[0].0@ == key {
        Some(pairs[0].1)
    } else {
        field_of(pairs.drop_first(), key)
    }
}

/// Whether a checklist element is checked: its `checked` field, else its
/// `done` field, read as a boolean (anything else counts as unchecked).
pub open spec fn item_checked(pairs: Seq<(String, JsonField)>) -> bool {
    let v = match field_of(pairs, "checked"@) {
        Some(v) => Some(v),
        None => field_of(pairs, "done"@),
    };
    match v {
        Some(JsonField::Bool(b)) => b,
        _ => false,
    }
}

/// The text of a checklist element: its `text` field, else its `title`
/// field, read as a string (anything else gives an empty text).
pub open spec fn item_text(pairs: Seq<(String, JsonField)>) -> Seq<char> {
    let v = match field_of(pairs, "text"@) {
        Some(v) => Some(v),
        None => field_of(pairs, "title"@),
    };
    match v {
        Some(JsonField::Text(t)) => t@,
        _ => Seq::empty(),
    }
}

/// The first pair with the given key.
fn lookup<'a>(pairs: &'a Vec<(String, JsonField)>, key: &str) -> (r: Option<&'a JsonField>)
    ensures
        match r {
            Some(v) => field_of(pairs@, key@) == Some(*v),
            None => field_of(pairs@, key@) is None,
        },
{
    let mut i: usize = 0;
    assert(pairs@.skip(0) =~= pairs@);
    while i < pairs.len()
        invariant
            i <= pairs.len(),
            field_of(pairs@.skip(i as int), key@) == field_of(pairs@, key@),
        decreases pairs.len() - i,
    {
        let k = chars_of(pairs[i].0.as_str());
        assert(pairs@.skip(i as int)[0] == pairs@[i as int]);
        if is_lit(k.as_slice(), key) {
            return Some(&pairs[i].1);
        }
        assert(pairs@.skip(i as int).drop_first() =~= pairs@.skip(i + 1));
        i = i + 1;
    }
    None
}

/// A checklist element: checked state and text.
pub fn section_check_item(pairs: &Vec<(String, JsonField)>) -> (r: SectionLine)
    ensures
        r matches SectionLine::Check { checked, text } && checked == item_checked(pairs@) && text@
            == item_text(pairs@),
{
    let v = match lookup(pairs, "checked") {
        Some(v) => Some(v),
        None => lookup(pairs, "done"),
    };
    let checked = match v {
        Some(JsonField::Bool(b)) => *b,
        _ => false,
    };
    let t = match lookup(pairs, "text") {
        Some(t) => Some(t),
        None => lookup(pairs, "title"),
    };
    let text = match t {
        Some(JsonField::Text(s)) => s.clone(),
        _ => String::new(),
    };
    SectionLine::Check { checked, text }
}

/// A list element of a numbered or bulleted section.
pub fn section_text_item(text: &String, numbered: bool, index: usize) -> (r: SectionLine)
    requires
        index < usize::MAX,
    ensures
        r matches SectionLine::Bullet { number, text: t } && t@ == text@ && number == if numbered {
            Some((index + 1) as usize)
        } else {
            None
        },
{
    SectionLine::Bullet {
        number: if numbered {
            Some(index + 1)
        } else {
            None
        },
        text: text.clone(),
    }
}

/// A section line as plain values, for stating what rendering gives.
pub enum LineView {
    Text(Seq<char>),
    Bullet(Option<usize>, Seq<char>),
    Check(bool, Seq<char>),
}

pub open spec fn line_view(l: SectionLine) -> LineView {
    match l {
        SectionLine::Text(t) => LineView::Text(t@),
        SectionLine::Bullet { number, text } => LineView::Bullet(number, text@),
        SectionLine::Check { checked, text } => LineView::Check(checked, text@),
    }
}

/// The lines of list items from index `i` on.
pub open spec fn item_lines(items: Seq<SectionItem>, numbered: bool, i: int) -> Seq<LineView>
    decreases items.len() - i,
{
    if i < 0 || i >= items.len() {
        Seq::empty()
    } else {
        let here = match items[i] {
            SectionItem::Text(t) => seq![
                LineView::Bullet(
                    if numbered {
                        Some((i + 1) as usize)
                    } else {
                        None
                    },
                    t@,
                ),
            ],
            SectionItem::Object(pairs) => seq![
                LineView::Check(item_checked(pairs@), item_text(pairs@)),
            ],
            SectionItem::Other => Seq::empty(),
        };
        here + item_lines(items, numbered, i + 1)
    }
}

/// The lines a section renders: a text content line by line, indented; a
/// list element by element (strings as bullets, numbered when the kind is
/// `numbered` or `ordered` in any case; objects as checklist entries; other
/// elements skipped); nothing for other content.
pub open spec fn section_lines(s: Section) -> Seq<LineView> {
    let kind = match s.kind {
        Some(k) => lowercase(k@),
        None => lowercase(Seq::empty()),
    };
    match s.content {
        SectionContent::Text(t) => lines(t@).map_values(|l: Seq<char>| LineView::Text(seq![' ', ' '] + l)),
        SectionContent::Items(items) => item_lines(items@, kind == "numbered"@ || kind == "ordered"@, 0),
        SectionContent::Other => Seq::empty(),
    }
}

pub open spec fn views_of(v: Seq<SectionLine>) -> Seq<LineView> {
    v.map_values(|l: SectionLine| line_view(l))
}

/// Appends the lines a section renders.
pub fn render_section(out: &mut Vec<SectionLine>, section: &Section)
    ensures
        views_of(final(out)@) == views_of(old(out)@) + section_lines(*section),
{
    let kind = match &section.kind {
        Some(k) => to_lowercase(k.as_str()),
        None => to_lowercase(""),
    };
    proof {
        assert(""@ =~= Seq::<char>::empty()) by {
            reveal_strlit("");
        }
    }
    let kc = chars_of(kind.as_str());
    let numbered = is_lit(kc.as_slice(), "numbered") || is_lit(kc.as_slice(), "ordered");
    match &section.content {
        SectionContent::Text(text) => {
            let tc = chars_of(text.as_str());
            let ls = split_lines(tc.as_slice());
            let ghost base = out@;
            let mut i: usize = 0;
            while i < ls.len()
                invariant
                    i <= ls.len(),
                    seqs_of(ls@) == lines(text@),
                    views_of(out@) == views_of(base) + seqs_of(ls@).take(i as int).map_values(
                        |l: Seq<char>| LineView::Text(seq![' ', ' '] + l),
                    ),
                decreases ls.len() - i,
            {
                let mut line: Vec<char> = Vec::new();
                line.push(' ');
                line.push(' ');
                extend(&mut line, ls[i].as_slice());
                assert(line@ =~= seq![' ', ' '] + ls@[i as int]@);
                let st = string_of(line.as_slice());
                let ghost before = out@;
                out.push(SectionLine::Text(st));
                proof {
                    assert(line_view(out@.last()) == LineView::Text(seq![' ', ' '] + ls@[i as int]@));
                    assert(seqs_of(ls@)[i as int] == ls@[i as int]@);
                    assert(views_of(out@) =~= views_of(before).push(
                        LineView::Text(seq![' ', ' '] + ls@[i as int]@),
                    ));
                    assert(seqs_of(ls@).take(i + 1) =~= seqs_of(ls@).take(i as int).push(
                        ls@[i as int]@,
                    ));
                    assert(views_of(out@) =~= views_of(base) + seqs_of(ls@).take(i + 1).map_values(
                        |l: Seq<char>| LineView::Text(seq![' ', ' '] + l),
                    ));
                }
                i = i + 1;
            }
            assert(seqs_of(ls@).take(ls.len() as int) =~= seqs_of(ls@));
        },
        SectionContent::Items(items) => {
            let ghost base = out@;
            let mut i: usize = 0;
            while i < items.len()
                invariant
                    i <= items.len(),
                    views_of(out@) + item_lines(items@, numbered, i as int) == views_of(base)
                        + item_lines(items@, numbered, 0),
                decreases items.len() - i,
            {
                let ghost before = out@;
                match &items[i] {
                    SectionItem::Text(t) => {
                        out.push(section_text_item(t, numbered, i));
                    },
                    SectionItem::Object(pairs) => {
                        out.push(section_check_item(pairs));
                    },
                    SectionItem::Other => {},
                }
                proof {
                    assert(views_of(out@) + item_lines(items@, numbered, i + 1) =~= views_of(before)
                        + item_lines(items@, numbered, i as int));
                }
                i = i + 1;
            }
            assert(item_lines(items@, numbered, items@.len() as int) =~= Seq::<LineView>::empty());
            assert(views_of(out@) + Seq::<LineView>::empty() =~= views_of(out@));
        },
        SectionContent::Other => {
            assert(views_of(out@) =~= views_of(old(out)@) + Seq::<LineView>::empty());
        },
    }
}

/// The labels shown above the list: one per open list, then the selected
/// ticket's title in the detail view.
pub open spec fn breadcrumbs_spec(v: AppView) -> Seq<Seq<char>> {
    let labels = v.levels.map_values(|l: (Option<usize>, Seq<char>)| l.1);
    if v.detail && v.selected() is Some {
        labels.push(v.selected()->0.title@)
    } else {
        labels
    }
}

/// The breadcrumbs name every open list, root first, and in the detail
/// view end with the title of the ticket shown.
pub proof fn law_breadcrumbs(v: AppView)
    ensures
        ({
            let b = breadcrumbs_spec(v);
            &&& forall|k: int| 0 <= k < v.levels.len() ==> #[trigger] b[k] == v.levels[k].1
            &&& v.detail && v.selected() is Some ==> b.len() == v.levels.len() + 1 && b.last()
                == v.selected()->0.title@
            &&& !(v.detail && v.selected() is Some) ==> b.len() == v.levels.len()
        }),
{
}

pub fn breadcrumbs(app: &App) -> (r: Vec<String>)
    requires
        app.wf(),
    ensures
        r@.map_values(|s: String| s@) == breadcrumbs_spec(app@),
{
    let mut out: Vec<String> = Vec::new();
    let mut i: usize = 0;
    while i < app.stack.len()
        invariant
            i <= app.stack.len(),
            out@.map_values(|s: String| s@) == app@.levels.take(i as int).map_values(
                |l: (Option<usize>, Seq<char>)| l.1,
            ),
        decreases app.stack.len() - i,
    {
        let ghost before = out@;
        let label = app.stack[i].label.clone();
        out.push(label);
        assert(app@.levels[i as int].1 == app.stack@[i as int].label@);
        assert(out@.map_values(|s: String| s@) =~= before.map_values(|s: String| s@).push(label@));
        assert(app@.levels.take(i + 1).map_values(|l: (Option<usize>, Seq<char>)| l.1) =~= app@.levels.take(
            i as int,
        ).map_values(|l: (Option<usize>, Seq<char>)| l.1).push(app@.levels[i as int].1));
        assert(out@.map_values(|s: String| s@) =~= app@.levels.take(i + 1).map_values(
            |l: (Option<usize>, Seq<char>)| l.1,
        ));
        i = i + 1;
    }
    assert(app@.levels.take(app.stack.len() as int) =~= app@.levels);
    if app.detail {
        if let Some(t) = app.selected() {
            out.push(t.title.clone());
            assert(out@.map_values(|s: String| s@) =~= breadcrumbs_spec(app@));
        }
    }
    out
}

/// What a ticket's entry in a list shows.
#[derive(Debug)]
pub struct ListEntry {
    pub glyph: &'static str,
    pub tone: Tone,
    pub title: String,
    /// Finished tickets are shown crossed out.
    pub done: bool,
    /// The priority and its tone, when set.
    pub priority: Option<(String, Tone)>,
    /// The estimate, when set.
    pub estimate: Option<String>,
    /// The number of subtickets, when there are any.
    pub children: Option<usize>,
}

pub fn ticket_list_item(ticket: &Ticket) -> (e: ListEntry)
    ensures
        (e.glyph@, e.tone) == status_glyph_spec(lowercase(ticket.raw.status@)),
        e.title@ == ticket.title@,
        e.done == is_done_word(lowercase(ticket.raw.status@)),
        match e.priority {
            Some((p, tone)) => ticket.raw.priority@.len() > 0 && p@ == ticket.raw.priority@
                && tone == priority_tone_spec(lowercase(ticket.raw.priority@)),
            None => ticket.raw.priority@.len() == 0,
        },
        match e.estimate {
            Some(s) => ticket.raw.estimate@.len() > 0 && s@ == ticket.raw.estimate@,
            None => ticket.raw.estimate@.len() == 0,
        },
        match e.children {
            Some(n) => n > 0 && n == ticket.children@.len(),
            None => ticket.children@.len() == 0,
        },
{
    let (glyph, tone) = status_glyph(ticket.raw.status.as_str());
    let done = is_done(ticket.raw.status.as_str());
    let priority = if ticket.raw.priority.as_str().is_empty() {
        None
    } else {
        Some((ticket.raw.priority.clone(), priority_color(ticket.raw.priority.as_str())))
    };
    let estimate = if ticket.raw.estimate.as_str().is_empty() {
        None
    } else {
        Some(ticket.raw.estimate.clone())
    };
    let children = if ticket.children.len() == 0 {
        None
    } else {
        Some(ticket.children.len())
    };
    ListEntry { glyph, tone, title: ticket.title.clone(), done, priority, estimate, children }
}

/// Which field a detail meta entry shows.
#[derive(Debug, Clone, Copy, PartialEq, Eq, Structural)]
pub enum MetaKind {
    Status,
    Priority,
    Estimate,
}

/// One entry of the meta line of the detail view.
#[derive(Debug)]
pub struct MetaField {
    pub kind: MetaKind,
    pub value: String,
    pub tone: Tone,
}

/// One line of a ticket's detail view.
#[derive(Debug)]
pub enum DetailLine {
    /// Status glyph and title.
    Heading { glyph: &'static str, tone: Tone, title: String },
    /// The status, priority and estimate that are set.
    Meta(Vec<MetaField>),
    Blank,
    /// One line of the description.
    Description(String),
    /// A section's subtitle.
    Subtitle(String),
    /// A line of a section's content.
    Section(SectionLine),
    /// The number of subtickets, with a hint to open them.
    ChildrenHint(usize),
}

/// A detail line as plain values.
pub enum DetailView {
    Heading(Seq<char>, Tone, Seq<char>),
    Meta(Seq<(MetaKind, Seq<char>, Tone)>),
    Blank,
    Description(Seq<char>),
    Subtitle(Seq<char>),
    Section(LineView),
    ChildrenHint(usize),
}

pub open spec fn detail_view(l: DetailLine) -> DetailView {
    match l {
        DetailLine::Heading { glyph, tone, title } => DetailView::Heading(glyph@, tone, title@),
        DetailLine::Meta(fields) => DetailView::Meta(
            fields@.map_values(|f: MetaField| (f.kind, f.value@, f.tone)),
        ),
        DetailLine::Blank => DetailView::Blank,
        DetailLine::Description(t) => DetailView::Description(t@),
        DetailLine::Subtitle(t) => DetailView::Subtitle(t@),
        DetailLine::Section(l) => DetailView::Section(line_view(l)),
        DetailLine::ChildrenHint(n) => DetailView::ChildrenHint(n),
    }
}

pub open spec fn detail_views(v: Seq<DetailLine>) -> Seq<DetailView> {
    v.map_values(|l: DetailLine| detail_view(l))
}

/// The meta entries of a ticket: its status (in the status tone), priority
/// (in the priority tone) and estimate, each only when set.
pub open spec fn meta_spec(t: Ticket) -> Seq<(MetaKind, Seq<char>, Tone)> {
    (if t.raw.status@.len() > 0 {
        seq![(MetaKind::Status, t.raw.status@, status_glyph_spec(lowercase(t.raw.status@)).1)]
    } else {
        Seq::empty()
    }) + (if t.raw.priority@.len() > 0 {
        seq![(MetaKind::Priority, t.raw.priority@, priority_tone_spec(lowercase(t.raw.priority@)))]
    } else {
        Seq::empty()
    }) + (if t.raw.estimate@.len() > 0 {
        seq![(MetaKind::Estimate, t.raw.estimate@, Tone::Magenta)]
    } else {
        Seq::empty()
    })
}

/// The lines of the sections from index `i` on: each section's subtitle
/// when set, its rendered lines, then a blank line.
pub open spec fn sections_view(sections: Seq<Section>, i: int) -> Seq<DetailView>
    decreases sections.len() - i,
{
    if i < 0 || i >= sections.len() {
        Seq::empty()
    } else {
        let s = sections[i];
        (if s.subtitle@.len() > 0 {
            seq![DetailView::Subtitle(s.subtitle@)]
        } else {
            Seq::empty()
        }) + section_lines(s).map_values(|l: LineView| DetailView::Section(l)) + seq![
            DetailView::Blank,
        ] + sections_view(sections, i + 1)
    }
}

/// The detail view of a ticket: heading; meta line when any field is set;
/// a blank line; the description line by line and a blank line, when set;
/// the sections; the subticket hint when there are subtickets.
pub open spec fn detail_spec(t: Ticket) -> Seq<DetailView> {
    let glyph = status_glyph_spec(lowercase(t.raw.status@));
    seq![DetailView::Heading(glyph.0, glyph.1, t.title@)] + (if meta_spec(t).len() > 0 {
        seq![DetailView::Meta(meta_spec(t))]
    } else {
        Seq::empty()
    }) + seq![DetailView::Blank] + (if t.raw.description@.len() > 0 {
        lines(t.raw.description@).map_values(|l: Seq<char>| DetailView::Description(l)) + seq![
            DetailView::Blank,
        ]
    } else {
        Seq::empty()
    }) + sections_view(t.raw.sections@, 0) + (if t.children@.len() > 0 {
        seq![DetailView::ChildrenHint(t.children@.len() as usize)]
    } else {
        Seq::empty()
    })
}

/// The order of the meta entries.
pub open spec fn meta_rank(k: MetaKind) -> int {
    match k {
        MetaKind::Status => 0,
        MetaKind::Priority => 1,
        MetaKind::Estimate => 2,
    }
}

/// The ticket field a meta entry shows.
pub open spec fn meta_field(t: Ticket, k: MetaKind) -> Seq<char> {
    match k {
        MetaKind::Status => t.raw.status@,
        MetaKind::Priority => t.raw.priority@,
        MetaKind::Estimate => t.raw.estimate@,
    }
}

/// The meta line shows each of status, priority and estimate exactly when
/// it is set, with its value, once, in that order; the priority in its
/// priority tone, the status in its status tone, the estimate in magenta.
pub proof fn law_meta_entries(t: Ticket, k: MetaKind)
    ensures
        ({
            let m = meta_spec(t);
            &&& forall|i: int|
                0 <= i < m.len() ==> (#[trigger] m[i]).1 == meta_field(t, m[i].0) && m[i].1.len()
                    > 0
            &&& forall|i: int, j: int|
                0 <= i < j < m.len() ==> meta_rank((#[trigger] m[i]).0) < meta_rank(
                    (#[trigger] m[j]).0,
                )
            &&& meta_field(t, k).len() > 0 <==> exists|i: int| 0 <= i < m.len() && (#[trigger] m[i]).0 == k
            &&& forall|i: int|
                0 <= i < m.len() && (#[trigger] m[i]).0 == MetaKind::Priority ==> m[i].2
                    == priority_tone_spec(lowercase(m[i].1))
            &&& forall|i: int|
                0 <= i < m.len() && (#[trigger] m[i]).0 == MetaKind::Status ==> m[i].2
                    == status_glyph_spec(lowercase(m[i].1)).1
            &&& forall|i: int|
                0 <= i < m.len() && (#[trigger] m[i]).0 == MetaKind::Estimate ==> m[i].2
                    == Tone::Magenta
        }),
{
    let m = meta_spec(t);
    let a: Seq<(MetaKind, Seq<char>, Tone)> = if t.raw.status@.len() > 0 {
        seq![(MetaKind::Status, t.raw.status@, status_glyph_spec(lowercase(t.raw.status@)).1)]
    } else {
        Seq::empty()
    };
    let b: Seq<(MetaKind, Seq<char>, Tone)> = if t.raw.priority@.len() > 0 {
        seq![(MetaKind::Priority, t.raw.priority@, priority_tone_spec(lowercase(t.raw.priority@)))]
    } else {
        Seq::empty()
    };
    let c: Seq<(MetaKind, Seq<char>, Tone)> = if t.raw.estimate@.len() > 0 {
        seq![(MetaKind::Estimate, t.raw.estimate@, Tone::Magenta)]
    } else {
        Seq::empty()
    };
    assert(m == a + b + c);
    assert forall|i: int| 0 <= i < m.len() implies meta_rank((#[trigger] m[i]).0) == if i < a.len() {
        0int
    } else if i < a.len() + b.len() {
        1int
    } else {
        2int
    } && m[i].1 == meta_field(t, m[i].0) && m[i].1.len() > 0 by {
        if i < a.len() {
            assert(m[i] == a[i]);
        } else if i < a.len() + b.len() {
            assert(m[i] == b[i - a.len()]);
        } else {
            assert(m[i] == c[i - a.len() - b.len()]);
        }
    }
    if meta_field(t, k).len() > 0 {
        match k {
            MetaKind::Status => {
                assert(m[0].0 == k);
            },
            MetaKind::Priority => {
                assert(m[a.len() as int].0 == k);
            },
            MetaKind::Estimate => {
                assert(m[(a.len() + b.len()) as int].0 == k);
            },
        }
    }
    if exists|i: int| 0 <= i < m.len() && (#[trigger] m[i]).0 == k {
        let i = choose|i: int| 0 <= i < m.len() && (#[trigger] m[i]).0 == k;
        assert(m[i].1 == meta_field(t, m[i].0));
    }
}

/// The meta entries of a ticket.
pub fn detail_meta(ticket: &Ticket) -> (r: Vec<MetaField>)
    ensures
        r@.map_values(|f: MetaField| (f.kind, f.value@, f.tone)) == meta_spec(*ticket),
{
    let mut meta: Vec<MetaField> = Vec::new();
    if !ticket.raw.status.as_str().is_empty() {
        let (_, tone) = status_glyph(ticket.raw.status.as_str());
        meta.push(MetaField { kind: MetaKind::Status, value: ticket.raw.status.clone(), tone });
    }
    if !ticket.raw.priority.as_str().is_empty() {
        let tone = priority_color(ticket.raw.priority.as_str());
        meta.push(MetaField { kind: MetaKind::Priority, value: ticket.raw.priority.clone(), tone });
    }
    if !ticket.raw.estimate.as_str().is_empty() {
        meta.push(
            MetaField { kind: MetaKind::Estimate, value: ticket.raw.estimate.clone(), tone: Tone::Magenta },
        );
    }
    assert(meta@.map_values(|f: MetaField| (f.kind, f.value@, f.tone)) =~= meta_spec(*ticket));
    meta
}

/// Appends the lines of one section and a blank line.
fn push_section(out: &mut Vec<DetailLine>, section: &Section)
    ensures
        detail_views(final(out)@) == detail_views(old(out)@) + (if section.subtitle@.len() > 0 {
            seq![DetailView::Subtitle(section.subtitle@)]
        } else {
            Seq::empty()
        }) + section_lines(*section).map_values(|l: LineView| DetailView::Section(l)) + seq![
            DetailView::Blank,
        ],
{
    let ghost start = out@;
    if !section.subtitle.as_str().is_empty() {
        out.push(DetailLine::Subtitle(section.subtitle.clone()));
    }
    let ghost mid = out@;
    assert(detail_views(mid) =~= detail_views(start) + (if section.subtitle@.len() > 0 {
        seq![DetailView::Subtitle(section.subtitle@)]
    } else {
        Seq::empty()
    }));
    let mut lines_out: Vec<SectionLine> = Vec::new();
    render_section(&mut lines_out, section);
    assert(views_of(lines_out@) =~= section_lines(*section)) by {
        assert(views_of(Seq::<SectionLine>::empty()) =~= Seq::<LineView>::empty());
    }
    let n = lines_out.len();
    let ghost all = lines_out@;
    let mut i: usize = 0;
    while i < n
        invariant
            i <= n,
            n == all.len(),
            lines_out@ == all.skip(i as int),
            detail_views(out@) == detail_views(mid) + views_of(all.take(i as int)).map_values(
                |l: LineView| DetailView::Section(l),
            ),
        decreases n - i,
    {
        let l = lines_out.remove(0);
        let ghost before = out@;
        out.push(DetailLine::Section(l));
        proof {
            assert(l == all[i as int]);
            assert(all.skip(i as int).remove(0) =~= all.skip(i + 1));
            assert(views_of(all.take(i + 1)) =~= views_of(all.take(i as int)).push(line_view(l)));
            assert(detail_views(out@) =~= detail_views(before).push(DetailView::Section(line_view(l))));
            assert(detail_views(out@) =~= detail_views(mid) + views_of(all.take(i + 1)).map_values(
                |l: LineView| DetailView::Section(l),
            ));
        }
        i = i + 1;
    }
    assert(all.take(n as int) =~= all);
    let ghost before = out@;
    out.push(DetailLine::Blank);
    assert(detail_views(out@) =~= detail_views(before).push(DetailView::Blank));
}

/// The lines of a ticket's detail view.
pub fn draw_detail(ticket: &Ticket) -> (r: Vec<DetailLine>)
    ensures
        detail_views(r@) == detail_spec(*ticket),
{
    let mut out: Vec<DetailLine> = Vec::new();
    let (glyph, tone) = status_glyph(ticket.raw.status.as_str());
    out.push(DetailLine::Heading { glyph, tone, title: ticket.title.clone() });
    let meta = detail_meta(ticket);
    if meta.len() > 0 {
        out.push(DetailLine::Meta(meta));
    }
    out.push(DetailLine::Blank);
    let ghost s1 = out@;
    assert(detail_views(s1) =~= seq![
        DetailView::Heading(
            status_glyph_spec(lowercase(ticket.raw.status@)).0,
            status_glyph_spec(lowercase(ticket.raw.status@)).1,
            ticket.title@,
        ),
    ] + (if meta_spec(*ticket).len() > 0 {
        seq![DetailView::Meta(meta_spec(*ticket))]
    } else {
        Seq::empty()
    }) + seq![DetailView::Blank]);
    if !ticket.raw.description.as_str().is_empty() {
        let dc = chars_of(ticket.raw.description.as_str());
        let ls = split_lines(dc.as_slice());
        let mut i: usize = 0;
        while i < ls.len()
            invariant
                i <= ls.len(),
                seqs_of(ls@) == lines(ticket.raw.description@),
                detail_views(out@) == detail_views(s1) + seqs_of(ls@).take(i as int).map_values(
                    |l: Seq<char>| DetailView::Description(l),
                ),
            decreases ls.len() - i,
        {
            let ghost before = out@;
            let st = string_of(ls[i].as_slice());
            out.push(DetailLine::Description(st));
            proof {
                assert(seqs_of(ls@)[i as int] == ls@[i as int]@);
                assert(detail_views(out@) =~= detail_views(before).push(
                    DetailView::Description(ls@[i as int]@),
                ));
                assert(seqs_of(ls@).take(i + 1) =~= seqs_of(ls@).take(i as int).push(
                    ls@[i as int]@,
                ));
                assert(detail_views(out@) =~= detail_views(s1) + seqs_of(ls@).take(
                    i + 1,
                ).map_values(|l: Seq<char>| DetailView::Description(l)));
            }
            i = i + 1;
        }
        assert(seqs_of(ls@).take(ls.len() as int) =~= seqs_of(ls@));
        let ghost before = out@;
        out.push(DetailLine::Blank);
        assert(detail_views(out@) =~= detail_views(before).push(DetailView::Blank));
    }
    let ghost s2 = out@;
    let ghost desc_part = if ticket.raw.description@.len() > 0 {
        lines(ticket.raw.description@).map_values(|l: Seq<char>| DetailView::Description(l)) + seq![
            DetailView::Blank,
        ]
    } else {
        Seq::<DetailView>::empty()
    };
    assert(detail_views(s2) =~= detail_views(s1) + desc_part);
    let mut k: usize = 0;
    while k < ticket.raw.sections.len()
        invariant
            k <= ticket.raw.sections.len(),
            detail_views(out@) + sections_view(ticket.raw.sections@, k as int) == detail_views(s2)
                + sections_view(ticket.raw.sections@, 0),
        decreases ticket.raw.sections.len() - k,
    {
        let ghost before = out@;
        push_section(&mut out, &ticket.raw.sections[k]);
        assert(detail_views(out@) + sections_view(ticket.raw.sections@, k + 1) =~= detail_views(
            before,
        ) + sections_view(ticket.raw.sections@, k as int));
        k = k + 1;
    }
    assert(sections_view(ticket.raw.sections@, ticket.raw.sections@.len() as int) =~= Seq::<
        DetailView,
    >::empty());
    let ghost s3 = out@;
    assert(detail_views(s3) =~= detail_views(s2) + sections_view(ticket.raw.sections@, 0));
    if ticket.children.len() > 0 {
        out.push(DetailLine::ChildrenHint(ticket.children.len()));
    }
    assert(detail_views(out@) =~= detail_views(s3) + (if ticket.children@.len() > 0 {
        seq![DetailView::ChildrenHint(ticket.children@.len() as usize)]
    } else {
        Seq::<DetailView>::empty()
    }));
    assert(detail_views(out@) =~= detail_spec(*ticket));
    out
}

} // verus!
