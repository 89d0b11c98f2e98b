//! Repair of TOON text produced by the encoder: values that the decoder would
//! read as something other than the intended string are quoted.
//!
//! Three contexts are fixed:
//! 1. `key: value` scalar lines whose value starts with a number followed
//!    directly by a letter (`5m`, `2d`, `5m ago`): the whole value is quoted;
//! 2. rows under a tabular header `key[N]{cols}:`: each unsafe cell is quoted;
//! 3. inline primitive arrays `key[N]: a,b,c`: each unsafe cell is quoted.
use vstd::prelude::*;

use crate::text::{
    is_ws, lemma_find_first, lemma_find_none, lemma_ws_suffix, lemma_ws_prefix_at, lemma_find_some, lemma_join_push, lemma_trim_fixed, strip_cr, chars_of, contains_char, contains_double_dash, extend, find, find_char, has_double_dash,
    is_alpha, is_ascii_alpha, is_ascii_digit, is_digit, join, join_with, leading_ws,
    lemma_seqs_of_push, lemma_ws_prefix, lines, parse_usize, parse_usize_chars, seqs_of, slice_of,
    split_lines, string_of, trim, trim_end, trim_start, trimmed, trimmed_end, trimmed_start,
    ws_prefix_len,
};

verus! {

// ---------------------------------------------------------------------------
// Specifications
// ---------------------------------------------------------------------------

/// A character allowed in a key: ASCII letter, ASCII digit, `_` or `-`.
pub open spec fn key_char(c: char) -> bool {
    is_ascii_alpha(c) || is_ascii_digit(c) || c == '_' || c == '-'
}

pub open spec fn all_key_chars(s: Seq<char>) -> bool {
    forall|i: int| 0 <= i < s.len() ==> key_char(#[trigger] s[i])
}

/// The first `k` characters of `s` are a plain number: a leading ASCII
/// digit, then ASCII digits and at most one `.`.
pub open spec fn number_prefix(s: Seq<char>, k: int) -> bool {
    &&& 1 <= k <= s.len()
    &&& is_ascii_digit(s[0])
    &&& forall|i: int| 1 <= i < k ==> is_ascii_digit(#[trigger] s[i]) || s[i] == '.'
    &&& forall|i: int, j: int| 1 <= i < j < k ==> !(#[trigger] s[i] == '.' && #[trigger] s[j] == '.')
}

/// `s` starts with a number followed directly by a letter (`5m`, `1.5h`,
/// `2d ago`). The decoder would read the leading number as a number and
/// fail on what follows, so such a value must be quoted to stay a string.
pub open spec fn needs_quote(s: Seq<char>) -> bool {
    exists|k: int| 1 <= k < s.len() && #[trigger] is_ascii_alpha(s[k]) && number_prefix(s, k)
}

/// What needs quoting does not depend on how many digits the number
/// has: one more leading digit before a value that starts with a digit
/// changes nothing (`30m` like `0m`, `12h` like `2h`).
pub proof fn law_needs_quote_leading_digits(d: char, s: Seq<char>)
    requires
        is_ascii_digit(d),
        s.len() > 0,
        is_ascii_digit(s[0]),
    ensures
        needs_quote(seq![d] + s) == needs_quote(s),
{
    let ds = seq![d] + s;
    if needs_quote(s) {
        let k = choose|k: int| 1 <= k < s.len() && #[trigger] is_ascii_alpha(s[k]) && number_prefix(s, k);
        assert(ds[k + 1] == s[k]);
        assert(number_prefix(ds, k + 1)) by {
            assert forall|i: int| 1 <= i < k + 1 implies is_ascii_digit(#[trigger] ds[i]) || ds[i] == '.' by {
                assert(ds[i] == s[i - 1]);
            }
            assert forall|i: int, j: int| 1 <= i < j < k + 1 implies !(#[trigger] ds[i] == '.' && #[trigger] ds[j] == '.') by {
                assert(ds[i] == s[i - 1] && ds[j] == s[j - 1]);
                if i == 1 {
                    assert(is_ascii_digit(s[0]));
                }
            }
        }
        assert(is_ascii_alpha(ds[k + 1]));
    }
    if needs_quote(ds) {
        let k = choose|k: int| 1 <= k < ds.len() && #[trigger] is_ascii_alpha(ds[k]) && number_prefix(ds, k);
        assert(ds[1] == s[0]);
        assert(k >= 2);
        assert(s[k - 1] == ds[k]);
        assert(number_prefix(s, k - 1)) by {
            assert forall|i: int| 1 <= i < k - 1 implies is_ascii_digit(#[trigger] s[i]) || s[i] == '.' by {
                assert(s[i] == ds[i + 1]);
            }
            assert forall|i: int, j: int| 1 <= i < j < k - 1 implies !(#[trigger] s[i] == '.' && #[trigger] s[j] == '.') by {
                assert(s[i] == ds[i + 1] && s[j] == ds[j + 1]);
            }
        }
        assert(is_ascii_alpha(s[k - 1]));
    }
}

/// A digit followed directly by a letter always needs quoting, whatever
/// follows (`5m`, `2d ago`); and what needs quoting still does with
/// anything appended.
pub proof fn law_needs_quote_digit_letter(s: Seq<char>, rest: Seq<char>)
    ensures
        s.len() >= 2 && is_ascii_digit(s[0]) && is_ascii_alpha(s[1]) ==> needs_quote(s),
        needs_quote(s) ==> needs_quote(s + rest),
{
    if s.len() >= 2 && is_ascii_digit(s[0]) && is_ascii_alpha(s[1]) {
        assert(number_prefix(s, 1));
        assert(is_ascii_alpha(s[1]));
    }
    if needs_quote(s) {
        let k = choose|k: int| 1 <= k < s.len() && #[trigger] is_ascii_alpha(s[k]) && number_prefix(s, k);
        let sr = s + rest;
        assert(sr[k] == s[k]);
        assert(number_prefix(sr, k)) by {
            assert forall|i: int| 1 <= i < k implies is_ascii_digit(#[trigger] sr[i]) || sr[i] == '.' by {
                assert(sr[i] == s[i]);
            }
            assert forall|i: int, j: int| 1 <= i < j < k implies !(#[trigger] sr[i] == '.' && #[trigger] sr[j] == '.') by {
                assert(sr[i] == s[i] && sr[j] == s[j]);
            }
        }
        assert(is_ascii_alpha(sr[k]));
    }
}

/// Values that are no number-with-letters are left bare: a value not
/// starting with a digit, and a plain number (digits and dots only).
pub proof fn law_needs_quote_only_numbers_with_letters(s: Seq<char>)
    ensures
        s.len() == 0 || !is_ascii_digit(s[0]) ==> !needs_quote(s),
        (forall|i: int| 0 <= i < s.len() ==> is_ascii_digit(#[trigger] s[i]) || s[i] == '.')
            ==> !needs_quote(s),
{
    if needs_quote(s) {
        let k = choose|k: int| 1 <= k < s.len() && #[trigger] is_ascii_alpha(s[k]) && number_prefix(s, k);
        assert(is_ascii_alpha(s[k]));
    }
}

/// A cell that cannot stand bare in a tabular row or an inline array.
pub open spec fn cell_needs_quote(s: Seq<char>) -> bool {
    ||| s.contains(' ')
    ||| s.contains('\t')
    ||| s.contains(',')
    ||| has_double_dash(s)
    ||| s.contains(':')
    ||| needs_quote(s)
}

/// A cell must be quoted when it holds a space, a tab, a comma, a colon or
/// `--`, or reads like a number with letters; otherwise it may stand bare.
pub proof fn law_cell_needs_quote(s: Seq<char>)
    ensures
        s.contains(' ') || s.contains('\t') || s.contains(',') || s.contains(':')
            || needs_quote(s) ==> cell_needs_quote(s),
        (exists|i: int| 0 <= i && i + 1 < s.len() && #[trigger] s[i] == '-' && s[i + 1] == '-')
            ==> cell_needs_quote(s),
        cell_needs_quote(s) ==> s.contains(' ') || s.contains('\t') || s.contains(',')
            || s.contains(':') || needs_quote(s) || exists|i: int|
            0 <= i && i + 1 < s.len() && #[trigger] s[i] == '-' && s[i + 1] == '-',
{
    if exists|i: int| 0 <= i && i + 1 < s.len() && #[trigger] s[i] == '-' && s[i + 1] == '-' {
        let i = choose|i: int| 0 <= i && i + 1 < s.len() && #[trigger] s[i] == '-' && s[i + 1] == '-';
        assert(has_double_dash(s)) by {
            assert(s[i] == '-');
        }
    }
    if has_double_dash(s) {
        let i = choose|i: int| 0 <= i && i + 1 < s.len() && #[trigger] s[i] == '-' && s[i + 1] == '-';
        assert(#[trigger] s[i] == '-' && s[i + 1] == '-');
    }
}

/// Escaping works character by character: it distributes over
/// concatenation, doubles a backslash, escapes a quote with a backslash and
/// keeps every other character.
pub proof fn law_escaped(a: Seq<char>, b: Seq<char>, c: char)
    ensures
        escaped(a + b) == escaped(a) + escaped(b),
        escaped(seq![c]) == if c == '\\' {
            seq!['\\', '\\']
        } else if c == '"' {
            seq!['\\', '"']
        } else {
            seq![c]
        },
    decreases b.len(),
{
    assert(seq![c].drop_last() =~= Seq::<char>::empty());
    assert(escaped(seq![c]) == escaped(Seq::<char>::empty()) + escape_char(c));
    assert(Seq::<char>::empty() + escape_char(c) =~= escape_char(c));
    if b.len() == 0 {
        assert(a + b =~= a);
        assert(escaped(a) + escaped(b) =~= escaped(a));
    } else {
        law_escaped(a, b.drop_last(), c);
        assert((a + b).drop_last() =~= a + b.drop_last());
        assert((a + b).last() == b.last());
        assert(escaped(a + b) == escaped(a + b.drop_last()) + escape_char(b.last()));
        assert(escaped(b) == escaped(b.drop_last()) + escape_char(b.last()));
        assert(escaped(a) + escaped(b.drop_last()) + escape_char(b.last()) =~= escaped(a) + (
        escaped(b.drop_last()) + escape_char(b.last())));
    }
}

/// The escaped form of one character inside a quoted cell.
pub open spec fn escape_char(c: char) -> Seq<char> {
    if c == '\\' {
        seq!['\\', '\\']
    } else if c == '"' {
        seq!['\\', '"']
    } else {
        seq![c]
    }
}

/// Backslashes doubled and quotes escaped.
pub open spec fn escaped(s: Seq<char>) -> Seq<char>
    decreases s.len(),
{
    if s.len() == 0 {
        Seq::empty()
    } else {
        escaped(s.drop_last()) + escape_char(s.last())
    }
}

/// `s` is already a quoted cell.
pub open spec fn is_quoted(s: Seq<char>) -> bool {
    s.len() >= 2 && s[0] == '"' && s.last() == '"'
}

/// A cell as written back: unchanged when already quoted, empty or safe;
/// otherwise its trimmed text escaped and wrapped in quotes.
pub open spec fn quoted_cell(cell: Seq<char>) -> Seq<char> {
    let t = trim(cell);
    if is_quoted(t) || t.len() == 0 || !cell_needs_quote(t) {
        cell
    } else {
        seq!['"'] + escaped(t) + seq!['"']
    }
}

/// The cells of a comma-separated row from the current state on: commas
/// inside `"..."` do not split, and a backslash inside quotes keeps the
/// character after it.
pub open spec fn csv_from(
    s: Seq<char>,
    in_quote: bool,
    current: Seq<char>,
    cells: Seq<Seq<char>>,
) -> Seq<Seq<char>>
    decreases s.len(),
{
    if s.len() == 0 {
        cells.push(current)
    } else if s[0] == '"' {
        csv_from(s.drop_first(), !in_quote, current.push(s[0]), cells)
    } else if s[0] == '\\' && in_quote {
        if s.len() >= 2 {
            csv_from(s.skip(2), in_quote, current.push(s[0]).push(s[1]), cells)
        } else {
            csv_from(s.drop_first(), in_quote, current.push(s[0]), cells)
        }
    } else if s[0] == ',' && !in_quote {
        csv_from(s.drop_first(), in_quote, Seq::empty(), cells.push(current))
    } else {
        csv_from(s.drop_first(), in_quote, current.push(s[0]), cells)
    }
}

/// The cells of a comma-separated row.
pub open spec fn csv_cells(s: Seq<char>) -> Seq<Seq<char>> {
    csv_from(s, false, Seq::empty(), Seq::empty())
}

/// Each cell quoted as `quoted_cell` says, joined with commas.
pub open spec fn quoted_cells(s: Seq<char>) -> Seq<char> {
    join(csv_cells(s).map_values(|c: Seq<char>| quoted_cell(c)), seq![','])
}

/// A tabular row with its indentation kept and its cells quoted.
pub open spec fn quoted_row(line: Seq<char>) -> Seq<char> {
    let n = ws_prefix_len(line) as int;
    line.take(n) + quoted_cells(line.skip(n))
}

/// The row count `N` of a tabular header `key[N]{cols}:` with nothing but
/// whitespace after the colon; `None` for any other line.
pub open spec fn tabular_count(line: Seq<char>) -> Option<usize> {
    let rest = trim_start(line);
    match find(rest, '[') {
        None => None,
        Some(lb) => {
            let key = rest.take(lb);
            if key.len() == 0 || !all_key_chars(key) {
                None
            } else {
                let a = rest.skip(lb + 1);
                match find(a, ']') {
                    None => None,
                    Some(rb) => match parse_usize(a.take(rb)) {
                        None => None,
                        Some(count) => {
                            let b = trim_start(a.skip(rb + 1));
                            if !(b.len() > 0 && b[0] == '{') {
                                None
                            } else {
                                let c = b.skip(1);
                                match find(c, '}') {
                                    None => None,
                                    Some(rc) => {
                                        let d = trim_start(c.skip(rc + 1));
                                        if !(d.len() > 0 && d[0] == ':') {
                                            None
                                        } else if trim(d.skip(1)).len() != 0 {
                                            None
                                        } else {
                                            Some(count)
                                        }
                                    },
                                }
                            }
                        },
                    },
                }
            }
        },
    }
}

/// An inline array line `key[N]: a,b,c` (a non-empty payload, no `{`) with
/// its cells quoted and `": "` between header and payload; `None` for any
/// other line.
pub open spec fn inline_array_patch(line: Seq<char>) -> Option<Seq<char>> {
    let n = ws_prefix_len(line) as int;
    let indent = line.take(n);
    let rest = line.skip(n);
    match find(rest, '[') {
        None => None,
        Some(lb) => {
            let key = rest.take(lb);
            if key.len() == 0 || !all_key_chars(key) {
                None
            } else {
                let a = rest.skip(lb + 1);
                match find(a, ']') {
                    None => None,
                    Some(rb) => if parse_usize(a.take(rb)) is None {
                        None
                    } else {
                        let b = trim_start(a.skip(rb + 1));
                        if b.len() > 0 && b[0] == '{' {
                            None
                        } else if !(b.len() > 0 && b[0] == ':') {
                            None
                        } else {
                            let payload = trim_start(b.skip(1));
                            if payload.len() == 0 {
                                None
                            } else {
                                let header = rest.take(rest.len() - b.len());
                                Some(indent + header + seq![':', ' '] + quoted_cells(payload))
                            }
                        }
                    },
                }
            }
        },
    }
}

/// A `key: value` line whose value `needs_quote`, with the whole value
/// (trailing whitespace dropped) escaped and quoted; every other line
/// unchanged. List items (`-`) and comments (`#`) are left
/// alone, as are keys that are not plain keys.
pub open spec fn scalar_line_patch(line: Seq<char>) -> Seq<char> {
    let n = ws_prefix_len(line) as int;
    let indent = line.take(n);
    let rest = line.skip(n);
    if rest.len() > 0 && (rest[0] == '-' || rest[0] == '#') {
        line
    } else {
        match find(rest, ':') {
            None => line,
            Some(colon) => {
                let key = rest.take(colon);
                if key.len() == 0 || !all_key_chars(key) {
                    line
                } else if key.contains('[') || key.contains('{') {
                    line
                } else {
                    let after = rest.skip(colon + 1);
                    let value = trim_start(after);
                    if value.len() == 0 || value[0] == '"' || !needs_quote(value) {
                        line
                    } else {
                        let space = if after.len() > 0 && after[0] == ' ' {
                            seq![' ']
                        } else {
                            Seq::empty()
                        };
                        indent + key + seq![':'] + space + seq!['"'] + escaped(trim_end(value))
                            + seq!['"']
                    }
                }
            },
        }
    }
}

/// The patched lines: `remaining` rows of a tabular block still to quote;
/// a tabular header opens a block of its row count; otherwise an inline
/// array is patched, and any other line is treated as a scalar line.
pub open spec fn patch_lines(ls: Seq<Seq<char>>, remaining: nat) -> Seq<Seq<char>>
    decreases ls.len(),
{
    if ls.len() == 0 {
        Seq::empty()
    } else if remaining > 0 {
        seq![quoted_row(ls[0])] + patch_lines(ls.drop_first(), (remaining - 1) as nat)
    } else {
        match tabular_count(ls[0]) {
            Some(count) => seq![ls[0]] + patch_lines(ls.drop_first(), count as nat),
            None => match inline_array_patch(ls[0]) {
                Some(fixed) => seq![fixed] + patch_lines(ls.drop_first(), 0),
                None => seq![scalar_line_patch(ls[0])] + patch_lines(ls.drop_first(), 0),
            },
        }
    }
}

/// The whole text patched line by line, joined with `\n`, with a final
/// `\n` kept when the input ends with one.
pub open spec fn patched_text(text: Seq<char>) -> Seq<char> {
    join(patch_lines(lines(text), 0), seq!['\n']) + if text.len() > 0 && text.last() == '\n' {
        seq!['\n']
    } else {
        Seq::empty()
    }
}


// ---------------------------------------------------------------------------
// Laws
// ---------------------------------------------------------------------------

proof fn lemma_join_extend_last(cells: Seq<Seq<char>>, cur: Seq<char>, c: char)
    ensures
        join(cells.push(cur.push(c)), seq![',']) == join(cells.push(cur), seq![',']) + seq![c],
{
    lemma_join_push(cells, cur.push(c), seq![',']);
    lemma_join_push(cells, cur, seq![',']);
    if cells.len() == 0 {
        assert(cur.push(c) =~= cur + seq![c]);
    } else {
        assert(join(cells, seq![',']) + seq![','] + cur.push(c) =~= join(cells, seq![','])
            + seq![','] + cur + seq![c]);
    }
}

proof fn lemma_csv_from_join(
    s: Seq<char>,
    in_quote: bool,
    current: Seq<char>,
    cells: Seq<Seq<char>>,
)
    ensures
        join(csv_from(s, in_quote, current, cells), seq![',']) == join(cells.push(current), seq![','])
            + s,
    decreases s.len(),
{
    if s.len() == 0 {
        assert(join(cells.push(current), seq![',']) + s =~= join(cells.push(current), seq![',']));
    } else if s[0] == '"' || (s[0] == '\\' && in_quote && s.len() < 2) || !(s[0] == ','
        && !in_quote) && !(s[0] == '\\' && in_quote) {
        let q = if s[0] == '"' {
            !in_quote
        } else {
            in_quote
        };
        lemma_csv_from_join(s.drop_first(), q, current.push(s[0]), cells);
        lemma_join_extend_last(cells, current, s[0]);
        assert(seq![s[0]] + s.drop_first() =~= s);
        assert(join(cells.push(current), seq![',']) + seq![s[0]] + s.drop_first() =~= join(
            cells.push(current),
            seq![','],
        ) + s);
    } else if s[0] == '\\' && in_quote {
        lemma_csv_from_join(s.skip(2), in_quote, current.push(s[0]).push(s[1]), cells);
        lemma_join_extend_last(cells, current.push(s[0]), s[1]);
        lemma_join_extend_last(cells, current, s[0]);
        assert(seq![s[0]] + seq![s[1]] + s.skip(2) =~= s);
        assert(join(cells.push(current), seq![',']) + seq![s[0]] + seq![s[1]] + s.skip(2)
            =~= join(cells.push(current), seq![',']) + s);
    } else {
        lemma_csv_from_join(s.drop_first(), in_quote, Seq::empty(), cells.push(current));
        lemma_join_push(cells.push(current), Seq::empty(), seq![',']);
        assert(seq![s[0]] + s.drop_first() =~= s);
        assert(join(cells.push(current), seq![',']) + seq![','] + Seq::<char>::empty()
            + s.drop_first() =~= join(cells.push(current), seq![',']) + s);
    }
}

/// Splitting a row into cells loses nothing: joining the cells with commas
/// gives the row back.
pub proof fn law_csv_cells_join(s: Seq<char>)
    ensures
        join(csv_cells(s), seq![',']) == s,
{
    lemma_csv_from_join(s, false, Seq::empty(), Seq::empty());
    lemma_join_push(Seq::empty(), Seq::empty(), seq![',']);
    assert(Seq::<char>::empty() + s =~= s);
}

/// A row whose cells are all safe is written back unchanged.
pub proof fn law_safe_row_unchanged(line: Seq<char>)
    requires
        forall|i: int|
            0 <= i < csv_cells(line.skip(ws_prefix_len(line) as int)).len() ==> quoted_cell(
                #[trigger] csv_cells(line.skip(ws_prefix_len(line) as int))[i],
            ) == csv_cells(line.skip(ws_prefix_len(line) as int))[i],
    ensures
        quoted_row(line) == line,
{
    let n = ws_prefix_len(line) as int;
    let cells = csv_cells(line.skip(n));
    assert(cells.map_values(|c: Seq<char>| quoted_cell(c)) =~= cells);
    law_csv_cells_join(line.skip(n));
    lemma_ws_prefix(line);
    assert(line.take(n) + line.skip(n) =~= line);
}

/// Quoting a cell twice is the same as quoting it once.
pub proof fn law_quoted_cell_idempotent(cell: Seq<char>)
    ensures
        quoted_cell(quoted_cell(cell)) == quoted_cell(cell),
{
    let t = trim(cell);
    if !(is_quoted(t) || t.len() == 0 || !cell_needs_quote(t)) {
        let q = seq!['"'] + escaped(t) + seq!['"'];
        assert(q[0] == '"');
        assert(q.last() == '"');
        lemma_trim_fixed(q);
    }
}

proof fn lemma_join_prepend(a: Seq<char>, rest: Seq<Seq<char>>, sep: Seq<char>)
    ensures
        join(seq![a] + rest, sep) == if rest.len() == 0 {
            a
        } else {
            a + sep + join(rest, sep)
        },
    decreases rest.len(),
{
    if rest.len() == 0 {
        assert(seq![a] + rest =~= seq![a]);
    } else if rest.len() == 1 {
        assert((seq![a] + rest).drop_last() =~= seq![a]);
        assert((seq![a] + rest).last() == rest[0]);
        assert(join(seq![a], sep) == a);
        assert(join(rest, sep) == rest[0]);
    } else {
        lemma_join_prepend(a, rest.drop_last(), sep);
        assert((seq![a] + rest).drop_last() =~= seq![a] + rest.drop_last());
        assert((seq![a] + rest).last() == rest.last());
        assert(join(seq![a] + rest, sep) == join(seq![a] + rest.drop_last(), sep) + sep
            + rest.last());
        assert(join(rest, sep) == join(rest.drop_last(), sep) + sep + rest.last());
        assert(a + sep + join(rest.drop_last(), sep) + sep + rest.last() =~= a + sep + (join(
            rest.drop_last(),
            sep,
        ) + sep + rest.last()));
    }
}

/// The final-newline marker kept by `patched_text`.
pub open spec fn final_newline(t: Seq<char>) -> Seq<char> {
    if t.len() > 0 && t.last() == '\n' {
        seq!['\n']
    } else {
        Seq::empty()
    }
}


/// Quoting a scalar line twice is the same as quoting it once: the quoted
/// value starts with `"` and is left alone.
pub proof fn law_scalar_line_patch_idempotent(line: Seq<char>)
    ensures
        scalar_line_patch(scalar_line_patch(line)) == scalar_line_patch(line),
{
    let out = scalar_line_patch(line);
    if out != line {
        let n = ws_prefix_len(line) as int;
        lemma_ws_prefix(line);
        let indent = line.take(n);
        let rest = line.skip(n);
        let c = find(rest, ':')->0;
        lemma_find_some(rest, ':');
        let key = rest.take(c);
        let after = rest.skip(c + 1);
        let value = trim_start(after);
        let space = if after.len() > 0 && after[0] == ' ' {
            seq![' ']
        } else {
            Seq::<char>::empty()
        };
        let tail = seq![':'] + space + seq!['"'] + escaped(trim_end(value)) + seq!['"'];
        assert(out =~= indent + key + tail);
        assert(key[0] == rest[0]);
        assert(key_char(key[0]));
        // the indentation is unchanged
        assert forall|j: int| 0 <= j < n implies is_ws(#[trigger] out[j]) by {
            assert(out[j] == line[j]);
        }
        assert(out[n] == key[0]);
        lemma_ws_prefix_at(out, n);
        let rest2 = out.skip(n);
        assert(rest2 =~= key + tail);
        assert(rest2[0] == rest[0]);
        // the colon after the key is the first one
        assert forall|j: int| 0 <= j < c implies rest2[j] != ':' by {
            assert(rest2[j] == key[j]);
            assert(key_char(key[j]));
        }
        assert(rest2[c] == ':');
        lemma_find_first(rest2, ':', c);
        assert(rest2.take(c) =~= key);
        let after2 = rest2.skip(c + 1);
        assert(after2 =~= space + seq!['"'] + escaped(trim_end(value)) + seq!['"']);
        let m = space.len() as int;
        assert forall|j: int| 0 <= j < m implies is_ws(#[trigger] after2[j]) by {
            assert(after2[j] == ' ');
        }
        assert(after2[m] == '"');
        lemma_ws_prefix_at(after2, m);
        assert(trim_start(after2)[0] == '"');
    }
}

/// Text without carriage returns is its lines joined with `\n`, plus its
/// final newline.
pub proof fn lemma_lines_join(t: Seq<char>)
    requires
        !t.contains('\r'),
    ensures
        join(lines(t), seq!['\n']) + final_newline(t) == t,
    decreases t.len(),
{
    if t.len() == 0 {
        assert(join(lines(t), seq!['\n']) + final_newline(t) =~= t);
    } else {
        match find(t, '\n') {
            None => {
                assert(lines(t) == seq![t]);
                if t.last() == '\n' {
                    assert(t.contains('\n'));
                }
                assert(t + Seq::<char>::empty() =~= t);
            },
            Some(i) => {
                lemma_find_some(t, '\n');
                let a = t.take(i);
                let u = t.skip(i + 1);
                if a.len() > 0 && a.last() == '\r' {
                    assert(t[i - 1] == '\r');
                }
                assert(strip_cr(a) == a);
                assert(!u.contains('\r')) by {
                    if u.contains('\r') {
                        let k = choose|k: int| 0 <= k < u.len() && u[k] == '\r';
                        assert(t[i + 1 + k] == '\r');
                    }
                }
                lemma_lines_join(u);
                lemma_join_prepend(a, lines(u), seq!['\n']);
                if u.len() == 0 {
                    assert(a + seq!['\n'] =~= t);
                } else {
                    assert(lines(u).len() > 0);
                    assert(final_newline(t) == final_newline(u));
                    assert(a + seq!['\n'] + join(lines(u), seq!['\n']) + final_newline(u) =~= a
                        + seq!['\n'] + (join(lines(u), seq!['\n']) + final_newline(u)));
                    assert(a + seq!['\n'] + u =~= t);
                }
            },
        }
    }
}

/// The patch changes only the lines it quotes: text without carriage
/// returns in which no line needs quoting comes back unchanged.
pub proof fn law_unpatched_text_unchanged(text: Seq<char>)
    requires
        !text.contains('\r'),
        patch_lines(lines(text), 0) == lines(text),
    ensures
        patched_text(text) == text,
{
    lemma_lines_join(text);
}

// ---------------------------------------------------------------------------
// Re-splitting quoted rows
// ---------------------------------------------------------------------------

/// The quoting state after reading `c` as part of one cell from state `q`,
/// as `csv_from` reads it; `None` when `c` would be split at a comma or an
/// escape runs past its end.
pub open spec fn scan(c: Seq<char>, q: bool) -> Option<bool>
    decreases c.len(),
{
    if c.len() == 0 {
        Some(q)
    } else if c[0] == '"' {
        scan(c.drop_first(), !q)
    } else if c[0] == '\\' && q {
        if c.len() >= 2 {
            scan(c.skip(2), q)
        } else {
            None
        }
    } else if c[0] == ',' && !q {
        None
    } else {
        scan(c.drop_first(), q)
    }
}

/// Reading `c` from state `q` to its end meets no splitting comma.
pub open spec fn no_split(c: Seq<char>, q: bool) -> bool
    decreases c.len(),
{
    if c.len() == 0 {
        true
    } else if c[0] == '"' {
        no_split(c.drop_first(), !q)
    } else if c[0] == '\\' && q {
        if c.len() >= 2 {
            no_split(c.skip(2), q)
        } else {
            true
        }
    } else if c[0] == ',' && !q {
        false
    } else {
        no_split(c.drop_first(), q)
    }
}

/// Cells that split back into themselves: each but the last is read from
/// outside quotes back to outside quotes, the last without a split.
pub open spec fn resplits(ds: Seq<Seq<char>>) -> bool {
    &&& ds.len() >= 1
    &&& forall|i: int| 0 <= i < ds.len() - 1 ==> scan(#[trigger] ds[i], false) == Some(false)
    &&& no_split(ds.last(), false)
}

proof fn lemma_scan_no_split(c: Seq<char>, q: bool)
    requires
        scan(c, q) is Some,
    ensures
        no_split(c, q),
    decreases c.len(),
{
    if c.len() > 0 {
        if c[0] == '"' {
            lemma_scan_no_split(c.drop_first(), !q);
        } else if c[0] == '\\' && q {
            lemma_scan_no_split(c.skip(2), q);
        } else {
            lemma_scan_no_split(c.drop_first(), q);
        }
    }
}

proof fn lemma_scan_append(a: Seq<char>, b: Seq<char>, q: bool)
    requires
        scan(a, q) is Some,
    ensures
        scan(a + b, q) == scan(b, scan(a, q)->0),
        no_split(a + b, q) == no_split(b, scan(a, q)->0),
    decreases a.len(),
{
    if a.len() == 0 {
        assert(a + b =~= b);
    } else {
        let ab = a + b;
        assert(ab[0] == a[0]);
        if a[0] == '\\' && q {
            assert(ab.skip(2) =~= a.skip(2) + b);
            assert(ab[1] == a[1]);
            lemma_scan_append(a.skip(2), b, q);
        } else if a[0] == '"' {
            assert(ab.drop_first() =~= a.drop_first() + b);
            lemma_scan_append(a.drop_first(), b, !q);
        } else {
            assert(ab.drop_first() =~= a.drop_first() + b);
            lemma_scan_append(a.drop_first(), b, q);
        }
    }
}

/// Reading a cell that scans cleanly carries it into the current cell.
proof fn lemma_csv_from_cell(
    c: Seq<char>,
    r: Seq<char>,
    q: bool,
    cur: Seq<char>,
    cells: Seq<Seq<char>>,
)
    requires
        scan(c, q) is Some,
    ensures
        csv_from(c + r, q, cur, cells) == csv_from(r, scan(c, q)->0, cur + c, cells),
    decreases c.len(),
{
    if c.len() == 0 {
        assert(c + r =~= r);
        assert(cur + c =~= cur);
    } else {
        let cr = c + r;
        assert(cr[0] == c[0]);
        if c[0] == '\\' && q {
            assert(cr.skip(2) =~= c.skip(2) + r);
            assert(cr[1] == c[1]);
            lemma_csv_from_cell(c.skip(2), r, q, cur.push(c[0]).push(c[1]), cells);
            assert(cur.push(c[0]).push(c[1]) + c.skip(2) =~= cur + c);
        } else {
            assert(cr.drop_first() =~= c.drop_first() + r);
            let q2 = if c[0] == '"' {
                !q
            } else {
                q
            };
            lemma_csv_from_cell(c.drop_first(), r, q2, cur.push(c[0]), cells);
            assert(cur.push(c[0]) + c.drop_first() =~= cur + c);
        }
    }
}

/// Reading a last cell without a split closes it.
proof fn lemma_csv_from_last(c: Seq<char>, q: bool, cur: Seq<char>, cells: Seq<Seq<char>>)
    requires
        no_split(c, q),
    ensures
        csv_from(c, q, cur, cells) == cells.push(cur + c),
    decreases c.len(),
{
    if c.len() == 0 {
        assert(cur + c =~= cur);
    } else if c[0] == '\\' && q {
        if c.len() >= 2 {
            lemma_csv_from_last(c.skip(2), q, cur.push(c[0]).push(c[1]), cells);
            assert(cur.push(c[0]).push(c[1]) + c.skip(2) =~= cur + c);
        } else {
            assert(c.drop_first().len() == 0);
            assert(csv_from(c.drop_first(), q, cur.push(c[0]), cells) == cells.push(
                cur.push(c[0]),
            ));
            assert(cur.push(c[0]) =~= cur + c);
        }
    } else {
        let q2 = if c[0] == '"' {
            !q
        } else {
            q
        };
        assert(csv_from(c, q, cur, cells) == csv_from(c.drop_first(), q2, cur.push(c[0]), cells));
        lemma_csv_from_last(c.drop_first(), q2, cur.push(c[0]), cells);
        assert(cur.push(c[0]) + c.drop_first() =~= cur + c);
    }
}

/// Cells that resplit come back from their comma-joined row.
proof fn lemma_csv_join_resplits(ds: Seq<Seq<char>>, cells: Seq<Seq<char>>)
    requires
        resplits(ds),
    ensures
        csv_from(join(ds, seq![',']), false, Seq::empty(), cells) == cells + ds,
    decreases ds.len(),
{
    let d0 = ds[0];
    let rest = ds.drop_first();
    lemma_join_prepend(d0, rest, seq![',']);
    assert(seq![d0] + rest =~= ds);
    if rest.len() == 0 {
        lemma_csv_from_last(d0, false, Seq::empty(), cells);
        assert(Seq::<char>::empty() + d0 =~= d0);
        assert(cells.push(d0) =~= cells + ds);
    } else {
        assert(scan(ds[0], false) == Some(false));
        assert(resplits(rest)) by {
            assert forall|i: int| 0 <= i < rest.len() - 1 implies scan(#[trigger] rest[i], false)
                == Some(false) by {
                assert(rest[i] == ds[i + 1]);
            }
            assert(rest.last() == ds.last());
        }
        let x = seq![','] + join(rest, seq![',']);
        assert(d0 + seq![','] + join(rest, seq![',']) =~= d0 + x);
        lemma_csv_from_cell(d0, x, false, Seq::empty(), cells);
        assert(Seq::<char>::empty() + d0 =~= d0);
        assert(x.drop_first() =~= join(rest, seq![',']));
        lemma_csv_join_resplits(rest, cells.push(d0));
        assert(cells.push(d0) + rest =~= cells + ds);
    }
}

/// The cells of any row resplit.
proof fn lemma_csv_from_resplits(s: Seq<char>, q: bool, cur: Seq<char>, cells: Seq<Seq<char>>)
    requires
        scan(cur, false) == Some(q),
        forall|i: int| 0 <= i < cells.len() ==> scan(#[trigger] cells[i], false) == Some(false),
    ensures
        resplits(csv_from(s, q, cur, cells)),
    decreases s.len(),
{
    let r = csv_from(s, q, cur, cells);
    if s.len() == 0 {
        lemma_scan_no_split(cur, false);
        assert forall|i: int| 0 <= i < r.len() - 1 implies scan(#[trigger] r[i], false) == Some(
            false,
        ) by {
            assert(r[i] == cells[i]);
        }
    } else if s[0] == '"' {
        let one = seq![s[0]];
        lemma_scan_append(cur, one, false);
        assert(one[0] == '"');
        assert(one.drop_first() =~= Seq::<char>::empty());
        assert(scan(one, q) == scan(one.drop_first(), !q));
        assert(cur + one =~= cur.push(s[0]));
        lemma_csv_from_resplits(s.drop_first(), !q, cur.push(s[0]), cells);
    } else if s[0] == '\\' && q {
        if s.len() >= 2 {
            let two = seq![s[0], s[1]];
            lemma_scan_append(cur, two, false);
            assert(two[0] == '\\' && two.len() == 2);
            assert(two.skip(2) =~= Seq::<char>::empty());
            assert(scan(two, q) == scan(two.skip(2), q));
            assert(cur + two =~= cur.push(s[0]).push(s[1]));
            lemma_csv_from_resplits(s.skip(2), q, cur.push(s[0]).push(s[1]), cells);
        } else {
            let one = seq![s[0]];
            lemma_scan_append(cur, one, false);
            assert(cur + one =~= cur.push(s[0]));
            assert(s.drop_first().len() == 0);
            assert(r == csv_from(s.drop_first(), q, cur.push(s[0]), cells));
            assert(r == cells.push(cur.push(s[0])));
            assert forall|i: int| 0 <= i < r.len() - 1 implies scan(#[trigger] r[i], false)
                == Some(false) by {
                assert(r[i] == cells[i]);
            }
        }
    } else if s[0] == ',' && !q {
        assert(scan(Seq::<char>::empty(), false) == Some(false));
        assert forall|i: int| 0 <= i < cells.push(cur).len() implies scan(
            #[trigger] cells.push(cur)[i],
            false,
        ) == Some(false) by {
            if i < cells.len() {
                assert(cells.push(cur)[i] == cells[i]);
            }
        }
        lemma_csv_from_resplits(s.drop_first(), false, Seq::empty(), cells.push(cur));
    } else {
        lemma_scan_append(cur, seq![s[0]], false);
        assert(scan(seq![s[0]], q) == scan(seq![s[0]].drop_first(), q));
        assert(seq![s[0]].drop_first() =~= Seq::<char>::empty());
        assert(cur + seq![s[0]] =~= cur.push(s[0]));
        lemma_csv_from_resplits(s.drop_first(), q, cur.push(s[0]), cells);
    }
}

proof fn lemma_scan_escaped(t: Seq<char>)
    ensures
        scan(escaped(t), true) == Some(true),
    decreases t.len(),
{
    if t.len() > 0 {
        lemma_scan_escaped(t.drop_last());
        let e = escape_char(t.last());
        lemma_scan_append(escaped(t.drop_last()), e, true);
        assert(escaped(t) == escaped(t.drop_last()) + e);
        if t.last() == '\\' || t.last() == '"' {
            assert(e[0] == '\\' && e.len() == 2);
            assert(e.skip(2) =~= Seq::<char>::empty());
            assert(scan(e, true) == scan(e.skip(2), true));
        } else {
            assert(e[0] == t.last() && e.len() == 1);
            assert(e.drop_first() =~= Seq::<char>::empty());
            assert(scan(e, true) == scan(e.drop_first(), true));
        }
    }
}

/// A cell quoted by `quoted_cell` reads from outside quotes back to outside
/// quotes.
proof fn lemma_scan_quoted(t: Seq<char>)
    ensures
        scan(seq!['"'] + escaped(t) + seq!['"'], false) == Some(false),
{
    let open = seq!['"'];
    assert(scan(open, false) == scan(open.drop_first(), true));
    assert(open.drop_first() =~= Seq::<char>::empty());
    lemma_scan_escaped(t);
    lemma_scan_append(open, escaped(t), false);
    lemma_scan_append(open + escaped(t), seq!['"'], false);
    assert(scan(seq!['"'], true) == scan(seq!['"'].drop_first(), false));
    assert(seq!['"'].drop_first() =~= Seq::<char>::empty());
}

/// Quoting keeps a cell resplitting.
proof fn lemma_quoted_cell_scan(c: Seq<char>)
    ensures
        scan(c, false) == Some(false) ==> scan(quoted_cell(c), false) == Some(false),
        no_split(c, false) ==> no_split(quoted_cell(c), false),
{
    if quoted_cell(c) != c {
        lemma_scan_quoted(trim(c));
        lemma_scan_no_split(quoted_cell(c), false);
    }
}

/// Quoting the cells of a quoted row changes nothing.
pub proof fn law_quoted_cells_idempotent(p: Seq<char>)
    ensures
        quoted_cells(quoted_cells(p)) == quoted_cells(p),
{
    let cs = csv_cells(p);
    let ds = cs.map_values(|c: Seq<char>| quoted_cell(c));
    lemma_csv_from_resplits(p, false, Seq::empty(), Seq::empty());
    assert(resplits(ds)) by {
        assert forall|i: int| 0 <= i < ds.len() - 1 implies scan(#[trigger] ds[i], false) == Some(
            false,
        ) by {
            lemma_quoted_cell_scan(cs[i]);
        }
        lemma_quoted_cell_scan(cs.last());
    }
    lemma_csv_join_resplits(ds, Seq::empty());
    assert(Seq::<Seq<char>>::empty() + ds =~= ds);
    assert(csv_cells(join(ds, seq![','])) == ds);
    assert forall|i: int| 0 <= i < ds.len() implies quoted_cell(#[trigger] ds[i]) == ds[i] by {
        law_quoted_cell_idempotent(cs[i]);
    }
    assert(ds.map_values(|c: Seq<char>| quoted_cell(c)) =~= ds);
}

/// How a row splits into cells: there is at least one cell; the cells
/// joined with commas give the row back; each cell reads from outside quotes
/// with no comma outside quotes, and every cell but the last ends outside
/// quotes (a backslash inside quotes escaping the next character). So
/// exactly the commas outside quoted runs separate cells, and no other
/// split of the row has these properties.
pub proof fn law_csv_cells_split(s: Seq<char>)
    ensures
        resplits(csv_cells(s)),
        join(csv_cells(s), seq![',']) == s,
        forall|ds: Seq<Seq<char>>| resplits(ds) && join(ds, seq![',']) == s ==> ds == csv_cells(s),
{
    lemma_csv_from_resplits(s, false, Seq::empty(), Seq::empty());
    law_csv_cells_join(s);
    assert forall|ds: Seq<Seq<char>>| resplits(ds) && join(ds, seq![',']) == s implies ds
        == csv_cells(s) by {
        lemma_csv_join_resplits(ds, Seq::empty());
        assert(Seq::<Seq<char>>::empty() + ds =~= ds);
    }
}

/// What `quoted_cells` starts with: nothing for an empty row, a
/// non-whitespace character for a row that starts with one.
proof fn lemma_quoted_cells_start(p: Seq<char>)
    ensures
        p.len() == 0 ==> quoted_cells(p).len() == 0,
        p.len() > 0 && !is_ws(p[0]) ==> quoted_cells(p).len() > 0 && !is_ws(quoted_cells(p)[0]),
{
    let cs = csv_cells(p);
    lemma_csv_from_resplits(p, false, Seq::empty(), Seq::empty());
    law_csv_cells_join(p);
    let ds = cs.map_values(|c: Seq<char>| quoted_cell(c));
    let c0 = cs[0];
    let d0 = ds[0];
    let rest = cs.drop_first();
    let drest = ds.drop_first();
    lemma_join_prepend(c0, rest, seq![',']);
    lemma_join_prepend(d0, drest, seq![',']);
    assert(seq![c0] + rest =~= cs);
    assert(seq![d0] + drest =~= ds);
    let q = quoted_cells(p);
    assert(q == join(ds, seq![',']));
    if d0 != c0 {
        assert(d0[0] == '"');
        if drest.len() > 0 {
            assert(q[0] == d0[0]);
        }
    } else if c0.len() > 0 {
        assert(p[0] == c0[0]);
        if drest.len() > 0 {
            assert(q[0] == d0[0]);
        }
    } else {
        if rest.len() > 0 {
            assert(p[0] == ',');
            assert(q[0] == ',');
        } else {
            assert(p.len() == 0);
        }
    }
}

/// Quoting the cells of a quoted tabular row changes nothing.
pub proof fn law_quoted_row_idempotent(line: Seq<char>)
    ensures
        quoted_row(quoted_row(line)) == quoted_row(line),
{
    let n = ws_prefix_len(line) as int;
    lemma_ws_prefix(line);
    let p = line.skip(n);
    let q = quoted_cells(p);
    let out = line.take(n) + q;
    assert(quoted_row(line) == out);
    if p.len() > 0 {
        assert(p[0] == line[n]);
    }
    lemma_quoted_cells_start(p);
    assert forall|j: int| 0 <= j < n implies is_ws(#[trigger] out[j]) by {
        assert(out[j] == line[j]);
    }
    if n < out.len() {
        assert(out[n] == q[0]);
    }
    lemma_ws_prefix_at(out, n);
    assert(out.take(n) =~= line.take(n));
    assert(out.skip(n) =~= q);
    law_quoted_cells_idempotent(p);
}

/// A key character is not whitespace.
proof fn lemma_key_char_not_ws(c: char)
    requires
        key_char(c),
    ensures
        !is_ws(c),
        c != '[' && c != ']' && c != ':' && c != '{',
{
}

/// A patched inline array is a finished inline array: no tabular header,
/// and patching it again gives it back.
#[verifier::spinoff_prover]
#[verifier::rlimit(80)]
proof fn lemma_inline_array_patch_stable(line: Seq<char>)
    requires
        inline_array_patch(line) is Some,
    ensures
        tabular_count(inline_array_patch(line)->0) is None,
        inline_array_patch(inline_array_patch(line)->0) == inline_array_patch(line),
{
    let f = inline_array_patch(line)->0;
    let n = ws_prefix_len(line) as int;
    lemma_ws_prefix(line);
    let indent = line.take(n);
    let rest = line.skip(n);
    lemma_find_some(rest, '[');
    let lb = find(rest, '[')->0;
    let key = rest.take(lb);
    let a = rest.skip(lb + 1);
    lemma_find_some(a, ']');
    let rb = find(a, ']')->0;
    let a2 = a.skip(rb + 1);
    let w = ws_prefix_len(a2) as int;
    lemma_ws_prefix(a2);
    let b = trim_start(a2);
    let payload = trim_start(b.skip(1));
    let bs = b.skip(1);
    lemma_ws_prefix(bs);
    let h = rest.len() - b.len();
    let header = rest.take(h);
    let c = quoted_cells(payload);
    assert(f == indent + header + seq![':', ' '] + c);
    assert(h == lb + 1 + rb + 1 + w);
    assert(key_char(key[0]));
    lemma_key_char_not_ws(key[0]);
    // the row still starts at the same place
    assert forall|j: int| 0 <= j < n implies is_ws(#[trigger] f[j]) by {
        assert(f[j] == line[j]);
    }
    assert(f[n] == rest[0]);
    lemma_ws_prefix_at(f, n);
    let rest2 = f.skip(n);
    assert(rest2 =~= header + seq![':', ' '] + c);
    assert(trim_start(f) == rest2);
    // the same `[`
    assert forall|j: int| 0 <= j < lb implies rest2[j] != '[' by {
        assert(rest2[j] == rest[j]);
    }
    assert(rest2[lb] == '[');
    lemma_find_first(rest2, '[', lb);
    assert(rest2.take(lb) =~= key);
    // the same `]`
    let a_2 = rest2.skip(lb + 1);
    assert forall|j: int| 0 <= j < rb implies a_2[j] != ']' by {
        assert(a_2[j] == a[j]);
    }
    assert(a_2[rb] == a[rb]);
    lemma_find_first(a_2, ']', rb);
    assert(a_2.take(rb) =~= a.take(rb));
    // after `]`: the same whitespace, then `: ` and the cells
    let a2_2 = a_2.skip(rb + 1);
    assert(a2_2 =~= a2.take(w) + seq![':', ' '] + c);
    assert forall|j: int| 0 <= j < w implies is_ws(#[trigger] a2_2[j]) by {
        assert(a2_2[j] == a2[j]);
    }
    assert(a2_2[w] == ':');
    lemma_ws_prefix_at(a2_2, w);
    let b_2 = trim_start(a2_2);
    assert(b_2 =~= seq![':', ' '] + c);
    // the payload comes back as the quoted cells
    if payload.len() > 0 {
        assert(!is_ws(payload[0]));
    }
    lemma_quoted_cells_start(payload);
    let bs_2 = b_2.skip(1);
    assert(bs_2 =~= seq![' '] + c);
    assert(is_ws(bs_2[0]));
    assert forall|j: int| 0 <= j < 1 implies is_ws(#[trigger] bs_2[j]) by {}
    assert(bs_2[1] == c[0]);
    lemma_ws_prefix_at(bs_2, 1);
    assert(trim_start(bs_2) =~= c);
    assert(rest2.take(rest2.len() - b_2.len()) =~= header);
    law_quoted_cells_idempotent(payload);
    assert(f.take(n) =~= indent);
}

/// A scalar line that the patch changed is no array header.
proof fn lemma_scalar_patched_not_array(line: Seq<char>)
    requires
        scalar_line_patch(line) != line,
    ensures
        tabular_count(scalar_line_patch(line)) is None,
        inline_array_patch(scalar_line_patch(line)) is None,
{
    let out = scalar_line_patch(line);
    let n = ws_prefix_len(line) as int;
    lemma_ws_prefix(line);
    let indent = line.take(n);
    let rest = line.skip(n);
    let c = find(rest, ':')->0;
    lemma_find_some(rest, ':');
    let key = rest.take(c);
    let after = rest.skip(c + 1);
    let value = trim_start(after);
    let space = if after.len() > 0 && after[0] == ' ' {
        seq![' ']
    } else {
        Seq::<char>::empty()
    };
    let tail = seq![':'] + space + seq!['"'] + escaped(trim_end(value)) + seq!['"'];
    assert(out =~= indent + key + tail);
    assert(key_char(key[0]));
    lemma_key_char_not_ws(key[0]);
    assert forall|j: int| 0 <= j < n implies is_ws(#[trigger] out[j]) by {
        assert(out[j] == line[j]);
    }
    assert(out[n] == key[0]);
    lemma_ws_prefix_at(out, n);
    let rest2 = out.skip(n);
    assert(rest2 =~= key + tail);
    assert(rest2[c] == ':');
    assert forall|j: int| 0 <= j < c implies rest2[j] != '[' by {
        assert(rest2[j] == key[j]);
        lemma_key_char_not_ws(key[j]);
    }
    match find(rest2, '[') {
        None => {},
        Some(lb) => {
            lemma_find_some(rest2, '[');
            assert(lb > c);
            assert(rest2.take(lb)[c] == ':');
            assert(!key_char(rest2.take(lb)[c]));
        },
    }
    assert(trim_start(out) == rest2);
}

/// Patching patched lines changes nothing, from any number of tabular rows
/// still to quote.
proof fn lemma_patch_lines_idempotent(ls: Seq<Seq<char>>, r: nat)
    ensures
        patch_lines(patch_lines(ls, r), r) == patch_lines(ls, r),
    decreases ls.len(),
{
    if ls.len() > 0 {
        let l = ls[0];
        let t = ls.drop_first();
        let out = patch_lines(ls, r);
        if r > 0 {
            let tail = patch_lines(t, (r - 1) as nat);
            assert(out == seq![quoted_row(l)] + tail);
            assert(out[0] == quoted_row(l));
            assert(out.drop_first() =~= tail);
            law_quoted_row_idempotent(l);
            lemma_patch_lines_idempotent(t, (r - 1) as nat);
            assert(patch_lines(out, r) == seq![quoted_row(quoted_row(l))] + patch_lines(
                tail,
                (r - 1) as nat,
            ));
        } else {
            match tabular_count(l) {
                Some(count) => {
                    let tail = patch_lines(t, count as nat);
                    assert(out[0] == l);
                    assert(out.drop_first() =~= tail);
                    lemma_patch_lines_idempotent(t, count as nat);
                },
                None => match inline_array_patch(l) {
                    Some(fixed) => {
                        let tail = patch_lines(t, 0);
                        assert(out[0] == fixed);
                        assert(out.drop_first() =~= tail);
                        lemma_inline_array_patch_stable(l);
                        lemma_patch_lines_idempotent(t, 0);
                    },
                    None => {
                        let x = scalar_line_patch(l);
                        let tail = patch_lines(t, 0);
                        assert(out[0] == x);
                        assert(out.drop_first() =~= tail);
                        if x != l {
                            lemma_scalar_patched_not_array(l);
                        }
                        law_scalar_line_patch_idempotent(l);
                        lemma_patch_lines_idempotent(t, 0);
                    },
                },
            }
        }
    }
}

/// No line feed in `s`.
pub open spec fn single_line(s: Seq<char>) -> bool {
    forall|i: int| 0 <= i < s.len() ==> #[trigger] s[i] != '\n'
}

/// `s` ends with a carriage return.
pub open spec fn ends_cr(s: Seq<char>) -> bool {
    s.len() > 0 && s.last() == '\r'
}

/// `t` never has two carriage returns right before a line feed: every line
/// that ends in a line feed, its one `\r` dropped, ends otherwise.
pub open spec fn no_cr_cr_lf(t: Seq<char>) -> bool {
    forall|i: int|
        0 <= i && i + 2 < t.len() ==> !(#[trigger] t[i] == '\r' && t[i + 1] == '\r' && t[i + 2]
            == '\n')
}

proof fn lemma_escaped_single_line(t: Seq<char>)
    requires
        single_line(t),
    ensures
        single_line(escaped(t)),
    decreases t.len(),
{
    if t.len() > 0 {
        lemma_escaped_single_line(t.drop_last());
        assert(t.last() == t[t.len() - 1]);
        assert(escaped(t) == escaped(t.drop_last()) + escape_char(t.last()));
    }
}

proof fn lemma_join_single_line(parts: Seq<Seq<char>>, sep: Seq<char>)
    requires
        single_line(sep),
        forall|i: int| 0 <= i < parts.len() ==> single_line(#[trigger] parts[i]),
    ensures
        single_line(join(parts, sep)),
    decreases parts.len(),
{
    if parts.len() > 1 {
        let t = parts.drop_last();
        assert forall|i: int| 0 <= i < t.len() implies single_line(#[trigger] t[i]) by {
            assert(t[i] == parts[i]);
        }
        lemma_join_single_line(t, sep);
        assert(single_line(parts.last()));
    } else if parts.len() == 1 {
        assert(single_line(parts[0]));
    }
}

proof fn lemma_csv_from_single_line(s: Seq<char>, q: bool, cur: Seq<char>, cells: Seq<Seq<char>>)
    requires
        single_line(s),
        single_line(cur),
        forall|i: int| 0 <= i < cells.len() ==> single_line(#[trigger] cells[i]),
    ensures
        forall|i: int|
            0 <= i < csv_from(s, q, cur, cells).len() ==> single_line(
                #[trigger] csv_from(s, q, cur, cells)[i],
            ),
    decreases s.len(),
{
    if s.len() == 0 {
        assert forall|i: int| 0 <= i < cells.push(cur).len() implies single_line(
            #[trigger] cells.push(cur)[i],
        ) by {
            if i < cells.len() {
                assert(cells.push(cur)[i] == cells[i]);
            }
        }
    } else {
        assert(single_line(s.drop_first()));
        assert(s[0] != '\n');
        if s[0] == '\\' && q && s.len() >= 2 {
            assert(single_line(s.skip(2)));
            assert(s[1] != '\n');
            assert(single_line(cur.push(s[0]).push(s[1])));
            assert(csv_from(s, q, cur, cells) == csv_from(s.skip(2), q, cur.push(s[0]).push(s[1]), cells));
            lemma_csv_from_single_line(s.skip(2), q, cur.push(s[0]).push(s[1]), cells);
        } else if s[0] == ',' && !q {
            assert forall|i: int| 0 <= i < cells.push(cur).len() implies single_line(
                #[trigger] cells.push(cur)[i],
            ) by {
                if i < cells.len() {
                    assert(cells.push(cur)[i] == cells[i]);
                }
            }
            assert(csv_from(s, q, cur, cells) == csv_from(s.drop_first(), q, Seq::empty(), cells.push(cur)));
            lemma_csv_from_single_line(s.drop_first(), q, Seq::empty(), cells.push(cur));
        } else {
            assert(single_line(cur.push(s[0])));
            let q2 = if s[0] == '"' {
                !q
            } else {
                q
            };
            assert(csv_from(s, q, cur, cells) == csv_from(s.drop_first(), q2, cur.push(s[0]), cells));
            lemma_csv_from_single_line(s.drop_first(), q2, cur.push(s[0]), cells);
        }
    }
}

proof fn lemma_quoted_cells_single_line(p: Seq<char>)
    requires
        single_line(p),
    ensures
        single_line(quoted_cells(p)),
{
    lemma_csv_from_single_line(p, false, Seq::empty(), Seq::empty());
    let cs = csv_cells(p);
    let ds = cs.map_values(|c: Seq<char>| quoted_cell(c));
    assert forall|i: int| 0 <= i < ds.len() implies single_line(#[trigger] ds[i]) by {
        let c = cs[i];
        assert(single_line(c));
        let t = trim(c);
        lemma_ws_prefix(c);
        lemma_ws_suffix(trim_start(c));
        assert(single_line(trim_start(c)));
        assert(single_line(t));
        lemma_escaped_single_line(t);
        assert(single_line(seq!['"'] + escaped(t) + seq!['"']));
    }
    lemma_join_single_line(ds, seq![',']);
}

/// The quoted cells of a row that does not end with `\r` do not either.
proof fn lemma_quoted_cells_end(p: Seq<char>)
    requires
        !ends_cr(p),
    ensures
        !ends_cr(quoted_cells(p)),
{
    let cs = csv_cells(p);
    lemma_csv_from_resplits(p, false, Seq::empty(), Seq::empty());
    law_csv_cells_join(p);
    let ds = cs.map_values(|c: Seq<char>| quoted_cell(c));
    let q = quoted_cells(p);
    let cl = cs.last();
    let dl = ds.last();
    assert(dl == quoted_cell(cl));
    if cs.len() > 1 {
        assert(p == join(cs.drop_last(), seq![',']) + seq![','] + cl);
        assert(q == join(ds.drop_last(), seq![',']) + seq![','] + dl);
    } else {
        assert(p == cl);
        assert(q == dl);
    }
    if dl != cl {
        assert(dl.last() == '"');
        assert(q.last() == dl.last());
    } else if cl.len() > 0 {
        assert(p.last() == cl.last());
        assert(q.last() == dl.last());
    } else if cs.len() > 1 {
        assert(q.last() == ',');
    }
}

/// Patching one line of a given kind keeps it on one line and keeps it
/// non-empty.
proof fn lemma_patch_line_shape(l: Seq<char>)
    requires
        single_line(l),
    ensures
        single_line(quoted_row(l)),
        l.len() > 0 ==> quoted_row(l).len() > 0,
        inline_array_patch(l) matches Some(f) ==> single_line(f) && f.len() > 0,
        single_line(scalar_line_patch(l)),
        l.len() > 0 ==> scalar_line_patch(l).len() > 0,
        !ends_cr(l) ==> !ends_cr(quoted_row(l)),
        !ends_cr(l) && inline_array_patch(l) is Some ==> !ends_cr(inline_array_patch(l)->0),
        !ends_cr(l) ==> !ends_cr(scalar_line_patch(l)),
{
    let n = ws_prefix_len(l) as int;
    lemma_ws_prefix(l);
    let indent = l.take(n);
    let rest = l.skip(n);
    assert(single_line(indent) && single_line(rest));
    lemma_quoted_cells_single_line(rest);
    lemma_quoted_cells_start(rest);
    if rest.len() > 0 {
        assert(rest[0] == l[n]);
    }
    assert(quoted_row(l) == indent + quoted_cells(rest));
    if !ends_cr(l) {
        if rest.len() > 0 {
            assert(rest.last() == l.last());
            lemma_quoted_cells_end(rest);
            assert(quoted_row(l).last() == quoted_cells(rest).last());
        } else {
            assert(quoted_row(l) =~= l);
        }
    }
    if inline_array_patch(l) is Some {
        lemma_find_some(rest, '[');
        let lb = find(rest, '[')->0;
        let a = rest.skip(lb + 1);
        lemma_find_some(a, ']');
        let rb = find(a, ']')->0;
        let a2 = a.skip(rb + 1);
        lemma_ws_prefix(a2);
        let b = trim_start(a2);
        let bs = b.skip(1);
        lemma_ws_prefix(bs);
        let payload = trim_start(bs);
        assert(single_line(a) && single_line(a2) && single_line(b) && single_line(bs));
        assert(single_line(payload));
        lemma_quoted_cells_single_line(payload);
        let header = rest.take(rest.len() - b.len());
        assert(single_line(header));
        let f = indent + header + seq![':', ' '] + quoted_cells(payload);
        assert(inline_array_patch(l) == Some(f));
        assert(single_line(f));
        assert(f.len() > 0);
        if !ends_cr(l) {
            assert(payload.len() > 0);
            assert(payload.last() == l.last());
            lemma_quoted_cells_end(payload);
            assert(!is_ws(payload[0]));
            lemma_quoted_cells_start(payload);
            assert(f.last() == quoted_cells(payload).last());
        }
    }
    if scalar_line_patch(l) != l {
        lemma_find_some(rest, ':');
        let c = find(rest, ':')->0;
        let key = rest.take(c);
        let after = rest.skip(c + 1);
        let value = trim_start(after);
        lemma_ws_prefix(after);
        lemma_ws_suffix(value);
        let v = trim_end(value);
        assert(single_line(after) && single_line(value) && single_line(v) && single_line(key));
        lemma_escaped_single_line(v);
        let space = if after.len() > 0 && after[0] == ' ' {
            seq![' ']
        } else {
            Seq::<char>::empty()
        };
        let out = indent + key + seq![':'] + space + seq!['"'] + escaped(v) + seq!['"'];
        assert(scalar_line_patch(l) == out);
        assert(single_line(out));
        assert(out.last() == '"');
    }
}

/// Patched lines correspond one to one with the lines, stay on one line
/// and stay non-empty.
proof fn lemma_patch_lines_shape(ls: Seq<Seq<char>>, r: nat)
    requires
        forall|i: int| 0 <= i < ls.len() ==> single_line(#[trigger] ls[i]),
    ensures
        patch_lines(ls, r).len() == ls.len(),
        forall|i: int| 0 <= i < ls.len() ==> single_line(#[trigger] patch_lines(ls, r)[i]),
        forall|i: int|
            0 <= i < ls.len() && ls[i].len() > 0 ==> (#[trigger] patch_lines(ls, r)[i]).len() > 0,
        forall|i: int|
            0 <= i < ls.len() && !ends_cr(ls[i]) ==> !ends_cr(#[trigger] patch_lines(ls, r)[i]),
    decreases ls.len(),
{
    if ls.len() > 0 {
        let l = ls[0];
        let t = ls.drop_first();
        assert forall|i: int| 0 <= i < t.len() implies single_line(#[trigger] t[i]) by {
            assert(t[i] == ls[i + 1]);
        }
        lemma_patch_line_shape(l);
        let r2: nat = if r > 0 {
            (r - 1) as nat
        } else {
            match tabular_count(l) {
                Some(count) => count as nat,
                None => 0,
            }
        };
        let x = if r > 0 {
            quoted_row(l)
        } else {
            match tabular_count(l) {
                Some(_) => l,
                None => match inline_array_patch(l) {
                    Some(f) => f,
                    None => scalar_line_patch(l),
                },
            }
        };
        lemma_patch_lines_shape(t, r2);
        let out = patch_lines(ls, r);
        assert(out == seq![x] + patch_lines(t, r2));
        assert forall|i: int| 0 <= i < ls.len() implies single_line(#[trigger] out[i]) by {
            if i > 0 {
                assert(out[i] == patch_lines(t, r2)[i - 1]);
            }
        }
        assert forall|i: int| 0 <= i < ls.len() && ls[i].len() > 0 implies (
        #[trigger] out[i]).len() > 0 by {
            if i > 0 {
                assert(out[i] == patch_lines(t, r2)[i - 1]);
                assert(t[i - 1] == ls[i]);
            }
        }
        assert forall|i: int| 0 <= i < ls.len() && !ends_cr(ls[i]) implies !ends_cr(
            #[trigger] out[i],
        ) by {
            if i > 0 {
                assert(out[i] == patch_lines(t, r2)[i - 1]);
                assert(t[i - 1] == ls[i]);
            }
        }
    }
}

/// The lines of a text without `\r\r\n`: none holds a line feed; none for
/// empty text; at least one for other text, the last non-empty unless the
/// text ends in `\n`; and no line that a line feed ended ends with `\r`.
proof fn lemma_lines_shape(t: Seq<char>)
    requires
        no_cr_cr_lf(t),
    ensures
        forall|i: int| 0 <= i < lines(t).len() ==> single_line(#[trigger] lines(t)[i]),
        t.len() == 0 ==> lines(t).len() == 0,
        t.len() > 0 ==> lines(t).len() > 0,
        t.len() > 0 && t.last() != '\n' ==> lines(t).last().len() > 0,
        forall|i: int|
            0 <= i < lines(t).len() && (i < lines(t).len() - 1 || (t.len() > 0 && t.last()
                == '\n')) ==> !ends_cr(#[trigger] lines(t)[i]),
    decreases t.len(),
{
    if t.len() > 0 {
        match find(t, '\n') {
            None => {
                assert(lines(t) == seq![t]);
                assert forall|i: int| 0 <= i < t.len() implies #[trigger] t[i] != '\n' by {
                    if t[i] == '\n' {
                        assert(t.contains('\n'));
                    }
                }
                if t.last() == '\n' {
                    assert(t.contains('\n'));
                }
            },
            Some(i) => {
                lemma_find_some(t, '\n');
                let a = t.take(i);
                let u = t.skip(i + 1);
                assert(no_cr_cr_lf(u)) by {
                    assert forall|k: int| 0 <= k && k + 2 < u.len() implies !(#[trigger] u[k]
                        == '\r' && u[k + 1] == '\r' && u[k + 2] == '\n') by {
                        assert(u[k] == t[i + 1 + k] && u[k + 1] == t[i + 2 + k] && u[k + 2] == t[i
                            + 3 + k]);
                    }
                }
                assert(single_line(a)) by {
                    assert forall|j: int| 0 <= j < a.len() implies #[trigger] a[j] != '\n' by {
                        assert(a[j] == t[j]);
                    }
                }
                let l0 = strip_cr(a);
                assert(single_line(l0));
                assert(!ends_cr(l0)) by {
                    if a.len() > 0 && a.last() == '\r' {
                        if l0.len() > 0 && l0.last() == '\r' {
                            assert(t[i - 2] == '\r' && t[i - 1] == '\r' && t[i] == '\n');
                        }
                    }
                }
                lemma_lines_shape(u);
                let ls = lines(t);
                assert(ls == seq![l0] + lines(u));
                assert forall|j: int| 0 <= j < ls.len() implies single_line(#[trigger] ls[j]) by {
                    if j > 0 {
                        assert(ls[j] == lines(u)[j - 1]);
                    }
                }
                if u.len() > 0 {
                    assert(u.last() == t.last());
                    assert(ls.last() == lines(u).last());
                } else {
                    assert(t.last() == '\n');
                }
                assert forall|j: int|
                    0 <= j < ls.len() && (j < ls.len() - 1 || (t.len() > 0 && t.last() == '\n'))
                        implies !ends_cr(#[trigger] ls[j]) by {
                    if j > 0 {
                        assert(ls[j] == lines(u)[j - 1]);
                    }
                }
            },
        }
    }
}

/// Lines without line feeds, joined with `\n` and given a final `\n` when
/// `nl`, split back into themselves, provided no line followed by a line
/// feed ends with `\r`.
proof fn lemma_lines_of_join(ps: Seq<Seq<char>>, nl: bool)
    requires
        forall|i: int| 0 <= i < ps.len() ==> single_line(#[trigger] ps[i]),
        forall|i: int| 0 <= i < ps.len() && (i < ps.len() - 1 || nl) ==> !ends_cr(#[trigger] ps[i]),
        nl ==> ps.len() > 0,
        !nl && ps.len() > 0 ==> ps.last().len() > 0,
    ensures
        lines(join(ps, seq!['\n']) + if nl {
            seq!['\n']
        } else {
            Seq::empty()
        }) == ps,
    decreases ps.len(),
{
    let e: Seq<char> = if nl {
        seq!['\n']
    } else {
        Seq::empty()
    };
    let x = join(ps, seq!['\n']) + e;
    if ps.len() == 0 {
        assert(x =~= Seq::<char>::empty());
        assert(lines(x) =~= ps);
    } else {
        let p0 = ps[0];
        let rest = ps.drop_first();
        assert(single_line(p0));
        lemma_join_prepend(p0, rest, seq!['\n']);
        assert(seq![p0] + rest =~= ps);
        if rest.len() == 0 {
            if nl {
                assert(!ends_cr(p0));
                assert(strip_cr(p0) == p0);
                assert(x =~= p0 + seq!['\n']);
                assert forall|j: int| 0 <= j < p0.len() implies x[j] != '\n' by {
                    assert(x[j] == p0[j]);
                }
                lemma_find_first(x, '\n', p0.len() as int);
                assert(x.take(p0.len() as int) =~= p0);
                assert(x.skip(p0.len() as int + 1) =~= Seq::<char>::empty());
                assert(lines(x) == seq![p0] + lines(Seq::<char>::empty()));
                assert(lines(x) =~= ps);
            } else {
                assert(x =~= p0);
                lemma_find_none(x, '\n');
                assert(lines(x) =~= ps);
            }
        } else {
            assert(!ends_cr(p0));
            assert(strip_cr(p0) == p0);
            let y = join(rest, seq!['\n']) + e;
            assert(x =~= p0 + seq!['\n'] + y);
            assert forall|j: int| 0 <= j < p0.len() implies x[j] != '\n' by {
                assert(x[j] == p0[j]);
            }
            assert(x[p0.len() as int] == '\n');
            lemma_find_first(x, '\n', p0.len() as int);
            assert(x.take(p0.len() as int) =~= p0);
            assert(x.skip(p0.len() as int + 1) =~= y);
            assert forall|i: int| 0 <= i < rest.len() implies single_line(#[trigger] rest[i]) by {
                assert(rest[i] == ps[i + 1]);
            }
            assert forall|i: int| 0 <= i < rest.len() && (i < rest.len() - 1 || nl) implies !ends_cr(
                #[trigger] rest[i],
            ) by {
                assert(rest[i] == ps[i + 1]);
            }
            assert(rest.last() == ps.last());
            lemma_lines_of_join(rest, nl);
            assert(lines(x) == seq![p0] + lines(y));
        }
    }
}

proof fn lemma_join_last(ps: Seq<Seq<char>>, sep: Seq<char>)
    requires
        ps.len() > 0,
        ps.last().len() > 0,
    ensures
        join(ps, sep).len() > 0,
        join(ps, sep).last() == ps.last().last(),
{
    if ps.len() > 1 {
        let j = join(ps, sep);
        assert(j == join(ps.drop_last(), sep) + sep + ps.last());
        assert(j[j.len() - 1] == ps.last()[ps.last().len() - 1]);
    }
}

/// Patching is idempotent: patching the patched text gives it back
/// unchanged, for every text without `\r\r\n` (CRLF text included). With
/// `\r\r\n` a line can still end in `\r` after its line feed's `\r` is
/// dropped, and a second pass drops that one too.
pub proof fn law_patch_idempotent(text: Seq<char>)
    requires
        no_cr_cr_lf(text),
    ensures
        patched_text(patched_text(text)) == patched_text(text),
{
    let ls = lines(text);
    let ps = patch_lines(ls, 0);
    let nl = text.len() > 0 && text.last() == '\n';
    let x = patched_text(text);
    lemma_lines_shape(text);
    lemma_patch_lines_shape(ls, 0);
    if !nl && ps.len() > 0 {
        assert(ls[ls.len() - 1] == ls.last());
        assert(ps.last() == ps[ps.len() - 1]);
    }
    assert forall|i: int| 0 <= i < ps.len() && (i < ps.len() - 1 || nl) implies !ends_cr(
        #[trigger] ps[i],
    ) by {
        assert(!ends_cr(ls[i]));
    }
    lemma_lines_of_join(ps, nl);
    assert(x == join(ps, seq!['\n']) + if nl {
        seq!['\n']
    } else {
        Seq::empty()
    });
    assert(lines(x) == ps);
    lemma_patch_lines_idempotent(ls, 0);
    // the final newline is kept
    if nl {
        assert(x.last() == '\n');
    } else if ps.len() > 0 {
        lemma_join_last(ps, seq!['\n']);
        assert(x =~= join(ps, seq!['\n']));
        assert(single_line(ps.last()));
        assert(ps.last().last() == ps.last()[ps.last().len() - 1]);
    } else {
        assert(x =~= Seq::<char>::empty());
    }
}

// ---------------------------------------------------------------------------
// Executable patching
// ---------------------------------------------------------------------------

/// A character allowed in a key.
pub fn is_key_char(c: char) -> (r: bool)
    ensures
        r == key_char(c),
{
    is_alpha(c) || is_digit(c) || c == '_' || c == '-'
}

fn all_key(s: &[char]) -> (r: bool)
    ensures
        r == all_key_chars(s@),
{
    let mut i: usize = 0;
    while i < s.len()
        invariant
            i <= s.len(),
            forall|j: int| 0 <= j < i ==> key_char(#[trigger] s@[j]),
        decreases s.len() - i,
    {
        if !is_key_char(s[i]) {
            return false;
        }
        i = i + 1;
    }
    true
}

/// True if `s` starts with a number followed directly by a letter (e.g.
/// `5m`, `2d ago`), which the TOON decoder would misread unless quoted.
pub fn needs_string_quoting(s: &[char]) -> (r: bool)
    ensures
        r == needs_quote(s@),
{
    if s.len() == 0 || !is_digit(s[0]) {
        return false;
    }
    let mut seen_decimal = false;
    let ghost mut dot: int = 0;
    let mut i: usize = 1;
    while i < s.len()
        invariant
            1 <= i <= s.len(),
            number_prefix(s@, i as int),
            forall|k: int| 1 <= k < i ==> !is_ascii_alpha(#[trigger] s@[k]),
            seen_decimal ==> 1 <= dot < i && s@[dot] == '.',
            !seen_decimal ==> forall|k: int| 1 <= k < i ==> #[trigger] s@[k] != '.',
        decreases s.len() - i,
    {
        let c = s[i];
        if is_digit(c) {
        } else if c == '.' && !seen_decimal {
            seen_decimal = true;
            proof {
                dot = i as int;
            }
        } else if is_alpha(c) {
            assert(is_ascii_alpha(s@[i as int]) && number_prefix(s@, i as int));
            return true;
        } else {
            proof {
                assert forall|k: int| 1 <= k < s@.len() && #[trigger] is_ascii_alpha(s@[k])
                    implies !number_prefix(s@, k) by {
                    if k > i {
                        if c == '.' {
                            assert(s@[dot] == '.' && s@[i as int] == '.');
                        } else {
                            assert(!(is_ascii_digit(s@[i as int]) || s@[i as int] == '.'));
                        }
                    }
                }
            }
            return false;
        }
        assert(number_prefix(s@, i + 1));
        i = i + 1;
    }
    false
}

/// True if `s` cannot be parsed as a bare cell in tabular/inline-array context.
pub fn cell_needs_quoting(s: &[char]) -> (r: bool)
    ensures
        r == cell_needs_quote(s@),
{
    if contains_char(s, ' ') || contains_char(s, '\t') || contains_char(s, ',')
        || contains_double_dash(s) || contains_char(s, ':') {
        return true;
    }
    needs_string_quoting(s)
}

/// Appends the escaped form of `t` to `out`.
fn push_escaped(out: &mut Vec<char>, t: &[char])
    ensures
        final(out)@ == old(out)@ + escaped(t@),
{
    let mut i: usize = 0;
    while i < t.len()
        invariant
            i <= t.len(),
            out@ == old(out)@ + escaped(t@.take(i as int)),
        decreases t.len() - i,
    {
        let c = t[i];
        if c == '\\' {
            out.push('\\');
            out.push('\\');
        } else if c == '"' {
            out.push('\\');
            out.push('"');
        } else {
            out.push(c);
        }
        proof {
            assert(t@.take(i + 1).drop_last() =~= t@.take(i as int));
            assert(out@ =~= old(out)@ + escaped(t@.take(i + 1)));
        }
        i = i + 1;
    }
    assert(t@.take(t.len() as int) =~= t@);
}

/// A cell as written back into a row: quoted and escaped when unsafe.
pub fn quote_cell_if_unsafe(cell: &[char]) -> (r: Vec<char>)
    ensures
        r@ == quoted_cell(cell@),
{
    let t = trimmed(cell);
    if t.len() >= 2 && t[0] == '"' && t[t.len() - 1] == '"' {
        return slice_of(cell, 0, cell.len());
    }
    if t.len() == 0 || !cell_needs_quoting(t.as_slice()) {
        return slice_of(cell, 0, cell.len());
    }
    let mut out: Vec<char> = Vec::new();
    out.push('"');
    push_escaped(&mut out, t.as_slice());
    out.push('"');
    out
}

/// Split a CSV-like row, respecting `"..."` quoted cells. Backslash escapes
/// inside quotes are preserved verbatim.
pub fn split_csv_cells(s: &[char]) -> (r: Vec<Vec<char>>)
    ensures
        seqs_of(r@) == csv_cells(s@),
{
    let mut cells: Vec<Vec<char>> = Vec::new();
    let mut current: Vec<char> = Vec::new();
    let mut in_quote = false;
    let mut i: usize = 0;
    assert(s@.skip(0) =~= s@);
    assert(seqs_of(cells@) =~= Seq::<Seq<char>>::empty());
    assert(current@ =~= Seq::<char>::empty());
    while i < s.len()
        invariant
            i <= s.len(),
            csv_from(s@.skip(i as int), in_quote, current@, seqs_of(cells@)) == csv_cells(s@),
        decreases s.len() - i,
    {
        let ghost rest = s@.skip(i as int);
        let c = s[i];
        if c == '"' {
            in_quote = !in_quote;
            current.push(c);
            i = i + 1;
            assert(rest.drop_first() =~= s@.skip(i as int));
        } else if c == '\\' && in_quote {
            current.push(c);
            if i + 1 < s.len() {
                current.push(s[i + 1]);
                i = i + 2;
                assert(rest.skip(2) =~= s@.skip(i as int));
            } else {
                i = i + 1;
                assert(rest.drop_first() =~= s@.skip(i as int));
            }
        } else if c == ',' && !in_quote {
            let ghost before = cells@;
            cells.push(current);
            current = Vec::new();
            proof {
                lemma_seqs_of_push(before, cells@.last());
            }
            i = i + 1;
            assert(rest.drop_first() =~= s@.skip(i as int));
        } else {
            current.push(c);
            i = i + 1;
            assert(rest.drop_first() =~= s@.skip(i as int));
        }
    }
    let ghost before = cells@;
    cells.push(current);
    proof {
        lemma_seqs_of_push(before, cells@.last());
    }
    cells
}

/// The cells of `s`, each quoted when unsafe, joined with commas.
fn quote_cells(s: &[char]) -> (r: Vec<char>)
    ensures
        r@ == quoted_cells(s@),
{
    let cells = split_csv_cells(s);
    let mut quoted: Vec<Vec<char>> = Vec::new();
    let mut i: usize = 0;
    while i < cells.len()
        invariant
            i <= cells.len(),
            seqs_of(cells@) == csv_cells(s@),
            seqs_of(quoted@) == seqs_of(cells@).take(i as int).map_values(
                |c: Seq<char>| quoted_cell(c),
            ),
        decreases cells.len() - i,
    {
        let q = quote_cell_if_unsafe(cells[i].as_slice());
        let ghost before = quoted@;
        quoted.push(q);
        proof {
            lemma_seqs_of_push(before, q);
            assert(seqs_of(cells@)[i as int] == cells@[i as int]@);
            assert(seqs_of(quoted@) =~= seqs_of(cells@).take(i + 1).map_values(
                |c: Seq<char>| quoted_cell(c),
            ));
        }
        i = i + 1;
    }
    assert(seqs_of(cells@).take(cells.len() as int) =~= seqs_of(cells@));
    join_with(&quoted, ',')
}

/// A tabular row with its cells quoted when unsafe.
pub fn quote_tabular_row(line: &[char]) -> (r: Vec<char>)
    ensures
        r@ == quoted_row(line@),
{
    let n = leading_ws(line);
    proof {
        lemma_ws_prefix(line@);
    }
    let mut out = slice_of(line, 0, n);
    let rest = slice_of(line, n, line.len());
    let cells = quote_cells(rest.as_slice());
    extend(&mut out, cells.as_slice());
    assert(line@.subrange(0, n as int) =~= line@.take(n as int));
    assert(line@.subrange(n as int, line.len() as int) =~= line@.skip(n as int));
    out
}

/// If the line is `key[N]{cols}:` (tabular header), return N.
pub fn parse_tabular_header(line: &[char]) -> (r: Option<usize>)
    ensures
        r == tabular_count(line@),
{
    let rest = trimmed_start(line);
    let lb = match find_char(rest.as_slice(), '[') {
        Some(lb) => lb,
        None => return None,
    };
    assert(lb < rest.len());
    let key = slice_of(rest.as_slice(), 0, lb);
    assert(key@ =~= rest@.take(lb as int));
    if key.len() == 0 || !all_key(key.as_slice()) {
        return None;
    }
    let a = slice_of(rest.as_slice(), lb + 1, rest.len());
    assert(a@ =~= rest@.skip(lb + 1));
    let rb = match find_char(a.as_slice(), ']') {
        Some(rb) => rb,
        None => return None,
    };
    let digits = slice_of(a.as_slice(), 0, rb);
    assert(digits@ =~= a@.take(rb as int));
    let count = match parse_usize_chars(digits.as_slice()) {
        Some(count) => count,
        None => return None,
    };
    let after = slice_of(a.as_slice(), rb + 1, a.len());
    assert(after@ =~= a@.skip(rb + 1));
    let b = trimmed_start(after.as_slice());
    if !(b.len() > 0 && b[0] == '{') {
        return None;
    }
    let c = slice_of(b.as_slice(), 1, b.len());
    assert(c@ =~= b@.skip(1));
    let rc = match find_char(c.as_slice(), '}') {
        Some(rc) => rc,
        None => return None,
    };
    let after_c = slice_of(c.as_slice(), rc + 1, c.len());
    assert(after_c@ =~= c@.skip(rc + 1));
    let d = trimmed_start(after_c.as_slice());
    if !(d.len() > 0 && d[0] == ':') {
        return None;
    }
    let tail = slice_of(d.as_slice(), 1, d.len());
    assert(tail@ =~= d@.skip(1));
    let t = trimmed(tail.as_slice());
    if t.len() != 0 {
        return None;
    }
    Some(count)
}

/// Match `key[N]: a,b,c` (inline primitive array) and quote unsafe cells.
/// Returns `None` for non-matching lines so the caller can fall through.
pub fn patch_inline_array(line: &[char]) -> (r: Option<Vec<char>>)
    ensures
        match r {
            Some(v) => inline_array_patch(line@) == Some(v@),
            None => inline_array_patch(line@) is None,
        },
{
    let n = leading_ws(line);
    proof {
        lemma_ws_prefix(line@);
    }
    let indent = slice_of(line, 0, n);
    let rest = slice_of(line, n, line.len());
    assert(indent@ =~= line@.take(n as int));
    assert(rest@ =~= line@.skip(n as int));
    let lb = match find_char(rest.as_slice(), '[') {
        Some(lb) => lb,
        None => return None,
    };
    assert(lb < rest.len());
    let key = slice_of(rest.as_slice(), 0, lb);
    assert(key@ =~= rest@.take(lb as int));
    if key.len() == 0 || !all_key(key.as_slice()) {
        return None;
    }
    let a = slice_of(rest.as_slice(), lb + 1, rest.len());
    assert(a@ =~= rest@.skip(lb + 1));
    let rb = match find_char(a.as_slice(), ']') {
        Some(rb) => rb,
        None => return None,
    };
    let digits = slice_of(a.as_slice(), 0, rb);
    assert(digits@ =~= a@.take(rb as int));
    if parse_usize_chars(digits.as_slice()).is_none() {
        return None;
    }
    let after = slice_of(a.as_slice(), rb + 1, a.len());
    assert(after@ =~= a@.skip(rb + 1));
    let b = trimmed_start(after.as_slice());
    if b.len() > 0 && b[0] == '{' {
        return None;
    }
    if !(b.len() > 0 && b[0] == ':') {
        return None;
    }
    let b_tail = slice_of(b.as_slice(), 1, b.len());
    assert(b_tail@ =~= b@.skip(1));
    let payload = trimmed_start(b_tail.as_slice());
    if payload.len() == 0 {
        return None;
    }
    proof {
        lemma_ws_prefix(after@);
        assert(b@.len() <= a@.len());
    }
    let header = slice_of(rest.as_slice(), 0, rest.len() - b.len());
    assert(header@ =~= rest@.take(rest.len() - b.len()));
    let mut out = indent;
    extend(&mut out, header.as_slice());
    out.push(':');
    out.push(' ');
    let cells = quote_cells(payload.as_slice());
    extend(&mut out, cells.as_slice());
    assert(out@ =~= indent@ + header@ + seq![':', ' '] + quoted_cells(payload@));
    Some(out)
}

/// A `key: value` line with its value quoted when it reads like a malformed
/// number; any other line unchanged.
pub fn maybe_quote_scalar_line(line: &[char]) -> (r: Vec<char>)
    ensures
        r@ == scalar_line_patch(line@),
{
    let n = leading_ws(line);
    proof {
        lemma_ws_prefix(line@);
    }
    let indent = slice_of(line, 0, n);
    let rest = slice_of(line, n, line.len());
    assert(indent@ =~= line@.take(n as int));
    assert(rest@ =~= line@.skip(n as int));
    if rest.len() > 0 && (rest[0] == '-' || rest[0] == '#') {
        return slice_of(line, 0, line.len());
    }
    let colon = match find_char(rest.as_slice(), ':') {
        Some(colon) => colon,
        None => return slice_of(line, 0, line.len()),
    };
    let key = slice_of(rest.as_slice(), 0, colon);
    assert(key@ =~= rest@.take(colon as int));
    if key.len() == 0 || !all_key(key.as_slice()) {
        return slice_of(line, 0, line.len());
    }
    if contains_char(key.as_slice(), '[') || contains_char(key.as_slice(), '{') {
        return slice_of(line, 0, line.len());
    }
    let after = slice_of(rest.as_slice(), colon + 1, rest.len());
    assert(after@ =~= rest@.skip(colon + 1));
    let value = trimmed_start(after.as_slice());
    if value.len() == 0 || value[0] == '"' {
        return slice_of(line, 0, line.len());
    }
    if !needs_string_quoting(value.as_slice()) {
        return slice_of(line, 0, line.len());
    }
    let mut out = indent;
    extend(&mut out, key.as_slice());
    out.push(':');
    if after.len() > 0 && after[0] == ' ' {
        out.push(' ');
    }
    out.push('"');
    let v = trimmed_end(value.as_slice());
    push_escaped(&mut out, v.as_slice());
    out.push('"');
    proof {
        let space = if after@.len() > 0 && after@[0] == ' ' {
            seq![' ']
        } else {
            Seq::<char>::empty()
        };
        assert(out@ =~= indent@ + key@ + seq![':'] + space + seq!['"'] + escaped(trim_end(value@))
            + seq!['"']);
    }
    out
}

/// Patch known under-quoting in encoder output so it round-trips through the
/// decoder: scalar values like `5m`, and unsafe cells of tabular rows and
/// inline arrays are quoted.
pub fn quote_digit_prefix_scalars(text: &str) -> (r: String)
    ensures
        r@ == patched_text(text@),
{
    let chars = chars_of(text);
    let ls = split_lines(chars.as_slice());
    let mut out_lines: Vec<Vec<char>> = Vec::new();
    let mut tabular_remaining: usize = 0;
    let mut i: usize = 0;
    assert(seqs_of(ls@).skip(0) =~= seqs_of(ls@));
    while i < ls.len()
        invariant
            i <= ls.len(),
            seqs_of(ls@) == lines(text@),
            seqs_of(out_lines@) + patch_lines(seqs_of(ls@).skip(i as int), tabular_remaining as nat)
                == patch_lines(lines(text@), 0),
        decreases ls.len() - i,
    {
        let line = ls[i].as_slice();
        let ghost rest = seqs_of(ls@).skip(i as int);
        let ghost before = out_lines@;
        let ghost rem = tabular_remaining as nat;
        assert(rest[0] == line@);
        assert(rest.drop_first() =~= seqs_of(ls@).skip(i + 1));
        if tabular_remaining > 0 {
            out_lines.push(quote_tabular_row(line));
            tabular_remaining = tabular_remaining - 1;
        } else {
            match parse_tabular_header(line) {
                Some(count) => {
                    out_lines.push(slice_of(line, 0, line.len()));
                    assert(line@.subrange(0, line@.len() as int) =~= line@);
                    tabular_remaining = count;
                },
                None => match patch_inline_array(line) {
                    Some(fixed) => {
                        out_lines.push(fixed);
                    },
                    None => {
                        out_lines.push(maybe_quote_scalar_line(line));
                    },
                },
            }
        }
        proof {
            lemma_seqs_of_push(before, out_lines@.last());
            assert(seqs_of(out_lines@) + patch_lines(
                seqs_of(ls@).skip(i + 1),
                tabular_remaining as nat,
            ) =~= seqs_of(before) + patch_lines(rest, rem));
        }
        i = i + 1;
    }
    let mut out = join_with(&out_lines, '\n');
    if chars.len() > 0 && chars[chars.len() - 1] == '\n' {
        out.push('\n');
    }
    assert(seqs_of(ls@).skip(ls.len() as int) =~= Seq::<Seq<char>>::empty());
    assert(seqs_of(out_lines@) + Seq::<Seq<char>>::empty() =~= seqs_of(out_lines@));
    string_of(out.as_slice())
}

} // verus!
