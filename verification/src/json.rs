//! The journal's on-disk format, as mathematics: a JSON array of
//! `{"text": <string>, "created_at": <integer>}` objects.
//!
//! [`encode_tasks`] gives the exact, compact character sequence written
//! for a task list, and [`parse_tasks`] the exact meaning of a file's
//! characters: the task list held there, or `None` when the text is not a
//! well-formed task array. The reader allows JSON whitespace between tokens and the two
//! members in either order; a blank file also means the empty list. The
//! main law, [`lemma_parse_encode_tasks`], says that parsing an encoded
//! list gives that list back.
use vstd::prelude::*;

use crate::task::{task_view_wf, TaskView};

verus! {

// ---------------------------------------------------------------------
// Characters and digits
// ---------------------------------------------------------------------

/// A decimal digit `'0'..='9'`.
pub open spec fn is_digit(c: char) -> bool {
    48 <= c as u32 && c as u32 <= 57
}

/// The numeric value of a decimal digit.
pub open spec fn digit_val(c: char) -> nat {
    (c as u32 - 48) as nat
}

/// The character for a decimal digit value below ten.
pub open spec fn digit_char(d: nat) -> char {
    ((48 + d) as u32) as char
}

/// The lower-case hexadecimal character for a value below sixteen.
pub open spec fn hex_char(d: nat) -> char {
    if d < 10 {
        digit_char(d)
    } else {
        ((87 + d) as u32) as char
    }
}

/// A hexadecimal digit `'0'..='9' | 'a'..='f' | 'A'..='F'`.
pub open spec fn is_hex_digit(c: char) -> bool {
    is_digit(c) || (97 <= c as u32 && c as u32 <= 102) || (65 <= c as u32 && c as u32 <= 70)
}

/// The numeric value of a hexadecimal digit of either case.
pub open spec fn hex_val(c: char) -> nat {
    if is_digit(c) {
        digit_val(c)
    } else if 97 <= c as u32 && c as u32 <= 102 {
        (c as u32 - 87) as nat
    } else {
        (c as u32 - 55) as nat
    }
}

// ---------------------------------------------------------------------
// Encoding
// ---------------------------------------------------------------------

/// How one character appears inside a JSON string literal: quote and
/// backslash escaped, the five short control escapes, `\u00..` for the
/// remaining control characters, and every other character as itself.
pub open spec fn escape_char(c: char) -> Seq<char> {
    if c == '"' {
        seq!['\\', '"']
    } else if c == '\\' {
        seq!['\\', '\\']
    } else if c == '\u{8}' {
        seq!['\\', 'b']
    } else if c == '\t' {
        seq!['\\', 't']
    } else if c == '\n' {
        seq!['\\', 'n']
    } else if c == '\u{c}' {
        seq!['\\', 'f']
    } else if c == '\r' {
        seq!['\\', 'r']
    } else if (c as u32) < 32 {
        seq!['\\', 'u', '0', '0', hex_char((c as u32 / 16) as nat), hex_char((c as u32 % 16) as nat)]
    } else {
        seq![c]
    }
}

/// The body of a JSON string literal for the given text.
pub open spec fn escape_string(s: Seq<char>) -> Seq<char>
    decreases s.len(),
{
    if s.len() == 0 {
        Seq::empty()
    } else {
        escape_char(s[0]) + escape_string(s.drop_first())
    }
}

/// The decimal digits of a natural number, most significant first.
pub open spec fn dec_digits(n: nat) -> Seq<char>
    decreases n,
{
    if n < 10 {
        seq![digit_char(n)]
    } else {
        dec_digits(n / 10).push(digit_char(n % 10))
    }
}

/// The decimal form of an integer: a minus sign for negative values,
/// then the digits of the magnitude.
pub open spec fn encode_int(i: int) -> Seq<char> {
    if i < 0 {
        seq!['-'] + dec_digits((-i) as nat)
    } else {
        dec_digits(i as nat)
    }
}

/// One task as a JSON object, fields in declaration order, no spaces.
pub open spec fn encode_task(t: TaskView) -> Seq<char> {
    "{\"text\":\""@ + escape_string(t.text) + "\",\"created_at\":"@ + encode_int(t.created_at)
        + "}"@
}

/// The tail of an encoded task array: `,task` for each remaining task,
/// then the closing bracket.
pub open spec fn encode_rest(ts: Seq<TaskView>) -> Seq<char>
    decreases ts.len(),
{
    if ts.len() == 0 {
        seq![']']
    } else {
        seq![','] + encode_task(ts[0]) + encode_rest(ts.drop_first())
    }
}

/// A whole task list as a JSON array, exactly as the journal file holds it.
pub open spec fn encode_tasks(ts: Seq<TaskView>) -> Seq<char> {
    if ts.len() == 0 {
        seq!['[', ']']
    } else {
        seq!['['] + encode_task(ts[0]) + encode_rest(ts.drop_first())
    }
}

// ---------------------------------------------------------------------
// Parsing
// ---------------------------------------------------------------------

/// Position after the literal `pat` when it stands at `i` in `s`.
pub open spec fn parse_exact(s: Seq<char>, i: int, pat: Seq<char>) -> Option<int> {
    if 0 <= i && i + pat.len() <= s.len() && s.subrange(i, i + pat.len()) == pat {
        Some(i + pat.len())
    } else {
        None
    }
}

/// The characters that may follow a backslash as a one-letter escape.
pub open spec fn is_single_escape(c: char) -> bool {
    c == '"' || c == '\\' || c == '/' || c == 'b' || c == 't' || c == 'n' || c == 'f' || c == 'r'
}

/// The character a one-letter escape stands for.
pub open spec fn unescape_single(c: char) -> char {
    if c == 'b' {
        '\u{8}'
    } else if c == 't' {
        '\t'
    } else if c == 'n' {
        '\n'
    } else if c == 'f' {
        '\u{c}'
    } else if c == 'r' {
        '\r'
    } else {
        c
    }
}

/// The value of the four hexadecimal digits at `i`, if they are there.
pub open spec fn hex4_val(s: Seq<char>, i: int) -> Option<nat> {
    if 0 <= i && i + 4 <= s.len() && is_hex_digit(s[i]) && is_hex_digit(s[i + 1]) && is_hex_digit(
        s[i + 2],
    ) && is_hex_digit(s[i + 3]) {
        Some(
            hex_val(s[i]) * 4096 + hex_val(s[i + 1]) * 256 + hex_val(s[i + 2]) * 16 + hex_val(
                s[i + 3],
            ),
        )
    } else {
        None
    }
}

/// The character named by a `\u` escape whose digits start at `i`: four
/// hexadecimal digits for a scalar value, or a surrogate pair — a high
/// surrogate, `\u`, and a low surrogate — for a character beyond the
/// basic plane. The character and the position after the digits; a lone
/// surrogate names no character.
pub open spec fn parse_unicode_escape(s: Seq<char>, i: int) -> Option<(char, int)> {
    match hex4_val(s, i) {
        None => None,
        Some(u) => if u < 0xD800 || u >= 0xE000 {
            Some(((u as u32) as char, i + 4))
        } else if u < 0xDC00 {
            if i + 6 <= s.len() && s[i + 4] == '\\' && s[i + 5] == 'u' {
                match hex4_val(s, i + 6) {
                    None => None,
                    Some(u2) => if 0xDC00 <= u2 < 0xE000 {
                        Some(
                            (
                                ((0x10000 + (u - 0xD800) * 0x400 + (u2 - 0xDC00)) as u32) as char,
                                i + 10,
                            ),
                        )
                    } else {
                        None
                    },
                }
            } else {
                None
            }
        } else {
            None
        },
    }
}

/// A successful unicode escape ends past its start, within the text.
pub proof fn lemma_parse_unicode_escape_bounds(s: Seq<char>, i: int)
    ensures
        parse_unicode_escape(s, i) matches Some((c, j)) ==> i < j <= s.len(),
{
}

/// The rest of a JSON string literal from `i` (the opening quote already
/// consumed): the text up to the closing quote, and the position after it.
/// Unescaped control characters, bad escapes and a missing closing quote
/// all fail.
pub open spec fn parse_string_body(s: Seq<char>, i: int) -> Option<(Seq<char>, int)>
    decreases s.len() - i,
        via parse_string_body_decreases
{
    if !(0 <= i < s.len()) {
        None
    } else if s[i] == '"' {
        Some((Seq::empty(), i + 1))
    } else if s[i] == '\\' {
        if i + 1 < s.len() && is_single_escape(s[i + 1]) {
            match parse_string_body(s, i + 2) {
                Some((v, j)) => Some((seq![unescape_single(s[i + 1])] + v, j)),
                None => None,
            }
        } else if i + 1 < s.len() && s[i + 1] == 'u' {
            match parse_unicode_escape(s, i + 2) {
                Some((c, j)) => match parse_string_body(s, j) {
                    Some((v, k)) => Some((seq![c] + v, k)),
                    None => None,
                },
                None => None,
            }
        } else {
            None
        }
    } else if (s[i] as u32) < 32 {
        None
    } else {
        match parse_string_body(s, i + 1) {
            Some((v, j)) => Some((seq![s[i]] + v, j)),
            None => None,
        }
    }
}

#[via_fn]
proof fn parse_string_body_decreases(s: Seq<char>, i: int) {
    if 0 <= i < s.len() && s[i] == '\\' && !(i + 1 < s.len() && is_single_escape(s[i + 1])) && i
        + 1 < s.len() && s[i + 1] == 'u' {
        lemma_parse_unicode_escape_bounds(s, i + 2);
    }
}

/// A JSON string literal at `i`: its text and the position after it.
pub open spec fn parse_string(s: Seq<char>, i: int) -> Option<(Seq<char>, int)> {
    if 0 <= i < s.len() && s[i] == '"' {
        parse_string_body(s, i + 1)
    } else {
        None
    }
}

/// The first position at or after `i` that does not hold a decimal digit.
pub open spec fn digit_run_end(s: Seq<char>, i: int) -> int
    decreases s.len() - i,
{
    if 0 <= i < s.len() && is_digit(s[i]) {
        digit_run_end(s, i + 1)
    } else {
        i
    }
}

/// The value of a sequence of decimal digits, most significant first.
pub open spec fn digits_val(ds: Seq<char>) -> nat
    decreases ds.len(),
{
    if ds.len() == 0 {
        0
    } else {
        digits_val(ds.drop_last()) * 10 + digit_val(ds.last())
    }
}

/// A JSON integer at `i` — an optional minus sign, then digits without a
/// superfluous leading zero — whose value fits in 64 signed bits: the
/// value and the position after the digits. An out-of-range value, a
/// leading zero and a missing digit all fail.
pub open spec fn parse_int(s: Seq<char>, i: int) -> Option<(int, int)> {
    let neg = 0 <= i < s.len() && s[i] == '-';
    let d0 = if neg {
        i + 1
    } else {
        i
    };
    let e = digit_run_end(s, d0);
    if e == d0 {
        None
    } else if s[d0] == '0' && e > d0 + 1 {
        None
    } else {
        let m = digits_val(s.subrange(d0, e)) as int;
        if neg {
            if m <= 0x8000_0000_0000_0000 {
                Some((-m, e))
            } else {
                None
            }
        } else {
            if m <= 0x7FFF_FFFF_FFFF_FFFF {
                Some((m, e))
            } else {
                None
            }
        }
    }
}

/// JSON insignificant whitespace.
pub open spec fn is_ws(c: char) -> bool {
    c == ' ' || c == '\t' || c == '\n' || c == '\r'
}

/// The first position at or after `i` holding no whitespace.
pub open spec fn skip_ws(s: Seq<char>, i: int) -> int
    decreases s.len() - i,
{
    if 0 <= i < s.len() && is_ws(s[i]) {
        skip_ws(s, i + 1)
    } else {
        i
    }
}

/// The character `c` at `i`: the position after it.
pub open spec fn parse_char(s: Seq<char>, i: int, c: char) -> Option<int> {
    if 0 <= i < s.len() && s[i] == c {
        Some(i + 1)
    } else {
        None
    }
}

/// A member's opening — its quoted name and the colon, whitespace allowed
/// around both — starting at `i`: the position of the member's value.
pub open spec fn parse_member_prefix(s: Seq<char>, i: int, name: Seq<char>) -> Option<int> {
    match parse_exact(s, skip_ws(s, i), name) {
        None => None,
        Some(j) => match parse_char(s, skip_ws(s, j), ':') {
            None => None,
            Some(k) => Some(skip_ws(s, k)),
        },
    }
}

/// The two members of a task object from `i` (just past the `{`), in
/// either order, and the closing brace: the task and the position after
/// the `}`.
pub open spec fn parse_task_body(s: Seq<char>, i: int) -> Option<(TaskView, int)> {
    match parse_member_prefix(s, i, "\"text\""@) {
        Some(j1) => match parse_string(s, j1) {
            None => None,
            Some((text, j2)) => match parse_char(s, skip_ws(s, j2), ',') {
                None => None,
                Some(j3) => match parse_member_prefix(s, j3, "\"created_at\""@) {
                    None => None,
                    Some(j4) => match parse_int(s, j4) {
                        None => None,
                        Some((n, j5)) => match parse_char(s, skip_ws(s, j5), '}') {
                            None => None,
                            Some(j6) => Some((TaskView { text, created_at: n }, j6)),
                        },
                    },
                },
            },
        },
        None => match parse_member_prefix(s, i, "\"created_at\""@) {
            None => None,
            Some(j1) => match parse_int(s, j1) {
                None => None,
                Some((n, j2)) => match parse_char(s, skip_ws(s, j2), ',') {
                    None => None,
                    Some(j3) => match parse_member_prefix(s, j3, "\"text\""@) {
                        None => None,
                        Some(j4) => match parse_string(s, j4) {
                            None => None,
                            Some((text, j5)) => match parse_char(s, skip_ws(s, j5), '}') {
                                None => None,
                                Some(j6) => Some((TaskView { text, created_at: n }, j6)),
                            },
                        },
                    },
                },
            },
        },
    }
}

/// One task object at `i`: the task and the position after its `}`.
pub open spec fn parse_task(s: Seq<char>, i: int) -> Option<(TaskView, int)> {
    match parse_char(s, i, '{') {
        None => None,
        Some(j) => parse_task_body(s, j),
    }
}

/// The tail of a task array from `i`, one task already parsed: after any
/// whitespace, either the closing bracket, or a comma and a further task,
/// repeatedly.
pub open spec fn parse_tasks_rest(s: Seq<char>, i: int) -> Option<(Seq<TaskView>, int)>
    decreases s.len() - i,
        via parse_tasks_rest_decreases
{
    let p = skip_ws(s, i);
    if !(0 <= p < s.len()) {
        None
    } else if s[p] == ']' {
        Some((Seq::empty(), p + 1))
    } else if s[p] == ',' {
        match parse_task(s, skip_ws(s, p + 1)) {
            None => None,
            Some((t, j)) => match parse_tasks_rest(s, j) {
                None => None,
                Some((ts, k)) => Some((seq![t] + ts, k)),
            },
        }
    } else {
        None
    }
}

#[via_fn]
proof fn parse_tasks_rest_decreases(s: Seq<char>, i: int) {
    let p = skip_ws(s, i);
    if 0 <= p < s.len() && s[p] != ']' && s[p] == ',' {
        if 0 <= i <= s.len() {
            lemma_skip_ws_bounds(s, i);
        }
        lemma_skip_ws_bounds(s, p + 1);
        lemma_parse_task_bounds(s, skip_ws(s, p + 1));
    }
}

/// A whole journal file: a blank file (empty or whitespace only) and the
/// empty array both mean no tasks; otherwise a bracketed, comma-separated
/// task array covering the whole text, with JSON whitespace allowed
/// between tokens, and anything else is malformed.
pub open spec fn parse_tasks(s: Seq<char>) -> Option<Seq<TaskView>> {
    let i0 = skip_ws(s, 0);
    if i0 == s.len() {
        Some(Seq::empty())
    } else {
        match parse_char(s, i0, '[') {
            None => None,
            Some(j0) => {
                let i1 = skip_ws(s, j0);
                if 0 <= i1 < s.len() && s[i1] == ']' {
                    if skip_ws(s, i1 + 1) == s.len() {
                        Some(Seq::empty())
                    } else {
                        None
                    }
                } else {
                    match parse_task(s, i1) {
                        None => None,
                        Some((t, j)) => match parse_tasks_rest(s, j) {
                            None => None,
                            Some((ts, k)) => if skip_ws(s, k) == s.len() {
                                Some(seq![t] + ts)
                            } else {
                                None
                            },
                        },
                    }
                }
            },
        }
    }
}

// ---------------------------------------------------------------------
// Bounds: every parser moves forward and stays inside the text
// ---------------------------------------------------------------------

/// A successful string body ends past its start, within the text.
pub proof fn lemma_parse_string_body_bounds(s: Seq<char>, i: int)
    ensures
        parse_string_body(s, i) matches Some((v, j)) ==> i < j <= s.len(),
    decreases s.len() - i,
{
    if 0 <= i < s.len() {
        if s[i] == '"' {
        } else if s[i] == '\\' {
            if i + 1 < s.len() && is_single_escape(s[i + 1]) {
                lemma_parse_string_body_bounds(s, i + 2);
            } else if i + 1 < s.len() && s[i + 1] == 'u' {
                lemma_parse_unicode_escape_bounds(s, i + 2);
                match parse_unicode_escape(s, i + 2) {
                    Some((c, j)) => {
                        lemma_parse_string_body_bounds(s, j);
                    },
                    None => {},
                }
            }
        } else {
            lemma_parse_string_body_bounds(s, i + 1);
        }
    }
}

/// A digit run ends no earlier than it starts and within the text.
pub proof fn lemma_digit_run_end_bounds(s: Seq<char>, i: int)
    requires
        0 <= i <= s.len(),
    ensures
        i <= digit_run_end(s, i) <= s.len(),
    decreases s.len() - i,
{
    if i < s.len() && is_digit(s[i]) {
        lemma_digit_run_end_bounds(s, i + 1);
    }
}

/// A successful integer ends past its start, within the text.
pub proof fn lemma_parse_int_bounds(s: Seq<char>, i: int)
    ensures
        parse_int(s, i) matches Some((n, j)) ==> i < j <= s.len(),
{
    let neg = 0 <= i < s.len() && s[i] == '-';
    let d0 = if neg {
        i + 1
    } else {
        i
    };
    if 0 <= d0 <= s.len() {
        lemma_digit_run_end_bounds(s, d0);
    }
}

/// Skipping whitespace moves forward and stays inside the text.
pub proof fn lemma_skip_ws_bounds(s: Seq<char>, i: int)
    requires
        0 <= i <= s.len(),
    ensures
        i <= skip_ws(s, i) <= s.len(),
    decreases s.len() - i,
{
    if i < s.len() && is_ws(s[i]) {
        lemma_skip_ws_bounds(s, i + 1);
    }
}

/// A successful member opening ends at or past its start, within the text.
pub proof fn lemma_parse_member_prefix_bounds(s: Seq<char>, i: int, name: Seq<char>)
    requires
        0 <= i <= s.len(),
    ensures
        parse_member_prefix(s, i, name) matches Some(j) ==> i <= j <= s.len(),
{
    lemma_skip_ws_bounds(s, i);
    let m = skip_ws(s, i);
    match parse_exact(s, m, name) {
        None => {},
        Some(j) => {
            lemma_skip_ws_bounds(s, j);
            match parse_char(s, skip_ws(s, j), ':') {
                None => {},
                Some(k) => {
                    lemma_skip_ws_bounds(s, k);
                },
            }
        },
    }
}

/// A successful task ends past its start, within the text.
pub proof fn lemma_parse_task_bounds(s: Seq<char>, i: int)
    ensures
        parse_task(s, i) matches Some((t, j)) ==> i < j <= s.len(),
{
    match parse_char(s, i, '{') {
        None => {},
        Some(j0) => {
            lemma_parse_task_body_bounds(s, j0);
        },
    }
}

/// A successful task body ends at or past its start, within the text.
pub proof fn lemma_parse_task_body_bounds(s: Seq<char>, i: int)
    requires
        0 <= i <= s.len(),
    ensures
        parse_task_body(s, i) matches Some((t, j)) ==> i <= j <= s.len(),
{
    lemma_parse_member_prefix_bounds(s, i, "\"text\""@);
    lemma_parse_member_prefix_bounds(s, i, "\"created_at\""@);
    match parse_member_prefix(s, i, "\"text\""@) {
        Some(j1) => {
            match parse_string(s, j1) {
                None => {},
                Some((text, j2)) => {
                    lemma_parse_string_body_bounds(s, j1 + 1);
                    lemma_skip_ws_bounds(s, j2);
                    match parse_char(s, skip_ws(s, j2), ',') {
                        None => {},
                        Some(j3) => {
                            lemma_parse_member_prefix_bounds(s, j3, "\"created_at\""@);
                            match parse_member_prefix(s, j3, "\"created_at\""@) {
                                None => {},
                                Some(j4) => {
                                    lemma_parse_int_bounds(s, j4);
                                    match parse_int(s, j4) {
                                        None => {},
                                        Some((n, j5)) => {
                                            lemma_skip_ws_bounds(s, j5);
                                        },
                                    }
                                },
                            }
                        },
                    }
                },
            }
        },
        None => {
            match parse_member_prefix(s, i, "\"created_at\""@) {
                None => {},
                Some(j1) => {
                    lemma_parse_int_bounds(s, j1);
                    match parse_int(s, j1) {
                        None => {},
                        Some((n, j2)) => {
                            lemma_skip_ws_bounds(s, j2);
                            match parse_char(s, skip_ws(s, j2), ',') {
                                None => {},
                                Some(j3) => {
                                    lemma_parse_member_prefix_bounds(s, j3, "\"text\""@);
                                    match parse_member_prefix(s, j3, "\"text\""@) {
                                        None => {},
                                        Some(j4) => {
                                            lemma_parse_string_body_bounds(s, j4 + 1);
                                            match parse_string(s, j4) {
                                                None => {},
                                                Some((text, j5)) => {
                                                    lemma_skip_ws_bounds(s, j5);
                                                },
                                            }
                                        },
                                    }
                                },
                            }
                        },
                    }
                },
            }
        },
    }
}

// ---------------------------------------------------------------------
// The round trip: parsing an encoded task list gives the list back
// ---------------------------------------------------------------------

/// The pattern `pat` stands at position `i` of `s`.
pub open spec fn occurs_at(s: Seq<char>, i: int, pat: Seq<char>) -> bool {
    0 <= i && i + pat.len() <= s.len() && s.subrange(i, i + pat.len()) == pat
}

/// A concatenation stands at `i` exactly when its parts stand there in turn.
pub proof fn lemma_occurs_concat(s: Seq<char>, i: int, a: Seq<char>, b: Seq<char>)
    ensures
        occurs_at(s, i, a + b) <==> (occurs_at(s, i, a) && occurs_at(s, i + a.len(), b)),
{
    if occurs_at(s, i, a + b) {
        assert forall|k: int| 0 <= k < (a + b).len() implies s[i + k] == (a + b)[k] by {
            assert(s.subrange(i, i + (a + b).len())[k] == s[i + k]);
        }
        assert(s.subrange(i, i + a.len()) =~= a);
        assert forall|k: int| 0 <= k < b.len() implies s.subrange(
            i + a.len(),
            i + a.len() + b.len(),
        )[k] == b[k] by {
            assert(s[i + (a.len() + k)] == (a + b)[a.len() + k]);
        }
        assert(s.subrange(i + a.len(), i + a.len() + b.len()) =~= b);
    }
    if occurs_at(s, i, a) && occurs_at(s, i + a.len(), b) {
        assert(s.subrange(i, i + (a + b).len()) =~= a + b);
    }
}

/// Escaping one more character appends that character's escape.
pub proof fn lemma_escape_string_push(s: Seq<char>, c: char)
    ensures
        escape_string(s.push(c)) == escape_string(s) + escape_char(c),
    decreases s.len(),
{
    if s.len() == 0 {
        let e: Seq<char> = Seq::empty();
        assert(s.push(c).drop_first() =~= e);
        assert(escape_string(s.push(c)) == escape_char(c) + escape_string(e));
        assert(escape_string(e) == e);
        assert(escape_string(s) == e);
        assert(escape_char(c) + e =~= e + escape_char(c));
    } else {
        assert(s.push(c).drop_first() =~= s.drop_first().push(c));
        lemma_escape_string_push(s.drop_first(), c);
        assert(escape_string(s.push(c)) == escape_char(s[0]) + escape_string(
            s.drop_first().push(c),
        ));
        assert(escape_char(s[0]) + (escape_string(s.drop_first()) + escape_char(c)) =~= (
        escape_char(s[0]) + escape_string(s.drop_first())) + escape_char(c));
    }
}

/// The digit characters carry their values.
pub proof fn lemma_digit_char_val(d: nat)
    requires
        d < 10,
    ensures
        is_digit(digit_char(d)),
        digit_val(digit_char(d)) == d,
{
}

/// The hexadecimal characters carry their values.
pub proof fn lemma_hex_char_val(d: nat)
    requires
        d < 16,
    ensures
        is_hex_digit(hex_char(d)),
        hex_val(hex_char(d)) == d,
{
}

/// The decimal digits of `n` are digits, start without a superfluous zero,
/// and carry the value `n`.
pub proof fn lemma_dec_digits_props(n: nat)
    ensures
        dec_digits(n).len() >= 1,
        forall|k: int| 0 <= k < dec_digits(n).len() ==> is_digit(#[trigger] dec_digits(n)[k]),
        digits_val(dec_digits(n)) == n,
        n > 0 ==> dec_digits(n)[0] != '0',
        n == 0 ==> dec_digits(n) =~= seq!['0'],
    decreases n,
{
    if n < 10 {
        lemma_digit_char_val(n);
        let ds = dec_digits(n);
        assert(ds == seq![digit_char(n)]);
        let e: Seq<char> = Seq::empty();
        assert(ds.drop_last() =~= e);
        assert(digits_val(e) == 0);
        assert(digits_val(ds) == digits_val(ds.drop_last()) * 10 + digit_val(ds.last()));
        assert(ds.last() == digit_char(n));
    } else {
        lemma_dec_digits_props(n / 10);
        lemma_digit_char_val(n % 10);
        let ds = dec_digits(n);
        let hd = dec_digits(n / 10);
        assert(ds == hd.push(digit_char(n % 10)));
        assert(ds.drop_last() =~= hd);
        assert(ds.last() == digit_char(n % 10));
        assert(digits_val(ds) == digits_val(ds.drop_last()) * 10 + digit_val(ds.last()));
        assert(digits_val(ds.drop_last()) == n / 10);
        assert((n / 10) * 10 + n % 10 == n) by (nonlinear_arith);
        assert forall|k: int| 0 <= k < ds.len() implies is_digit(#[trigger] ds[k]) by {
            if k < ds.len() - 1 {
                assert(ds[k] == hd[k]);
            } else {
                assert(ds[k] == digit_char(n % 10));
            }
        }
        assert(ds[0] == hd[0]);
    }
}

/// Appending a digit multiplies the value by ten and adds the digit.
pub proof fn lemma_digits_val_push(ds: Seq<char>, c: char)
    ensures
        digits_val(ds.push(c)) == digits_val(ds) * 10 + digit_val(c),
{
    assert(ds.push(c).drop_last() =~= ds);
    assert(ds.push(c).last() == c);
}

/// A longer stretch of a digit run never has a smaller value.
pub proof fn lemma_digits_val_prefix(s: Seq<char>, i: int, j: int, e: int)
    requires
        0 <= i <= j <= e <= s.len(),
    ensures
        digits_val(s.subrange(i, e)) >= digits_val(s.subrange(i, j)),
    decreases e - j,
{
    if j < e {
        assert(s.subrange(i, j + 1).drop_last() =~= s.subrange(i, j));
        assert(s.subrange(i, j + 1).last() == s[j]);
        assert(digits_val(s.subrange(i, j + 1)) == digits_val(s.subrange(i, j)) * 10 + digit_val(
            s[j],
        ));
        assert(digits_val(s.subrange(i, j)) * 10 >= digits_val(s.subrange(i, j)));
        lemma_digits_val_prefix(s, i, j + 1, e);
    }
}

/// A digit run reaches at least past every digit seen so far.
pub proof fn lemma_digit_run_end_at_least(s: Seq<char>, i: int, j: int)
    requires
        0 <= i <= j <= s.len(),
        forall|q: int| i <= q < j ==> is_digit(#[trigger] s[q]),
    ensures
        digit_run_end(s, i) >= j,
    decreases j - i,
{
    if i < j {
        assert(is_digit(s[i]));
        lemma_digit_run_end_at_least(s, i + 1, j);
    } else {
        lemma_digit_run_end_bounds(s, i);
    }
}

/// A stretch of digits followed by a non-digit is exactly the digit run.
pub proof fn lemma_digit_run_end_exact(s: Seq<char>, i: int, len: int)
    requires
        0 <= i,
        0 <= len,
        i + len <= s.len(),
        forall|k: int| 0 <= k < len ==> is_digit(#[trigger] s[i + k]),
        i + len == s.len() || !is_digit(s[i + len]),
    ensures
        digit_run_end(s, i) == i + len,
    decreases len,
{
    if len == 0 {
    } else {
        assert(is_digit(s[i + 0]));
        assert forall|k: int| 0 <= k < len - 1 implies is_digit(#[trigger] s[(i + 1) + k]) by {
            assert(is_digit(s[i + (k + 1)]));
        }
        lemma_digit_run_end_exact(s, i + 1, len - 1);
    }
}

/// An encoded 64-bit integer followed by a non-digit parses back to itself.
pub proof fn lemma_parse_int_encode(s: Seq<char>, i: int, n: int)
    requires
        occurs_at(s, i, encode_int(n)),
        i64::MIN <= n <= i64::MAX,
        i + encode_int(n).len() == s.len() || !is_digit(s[i + encode_int(n).len()]),
    ensures
        parse_int(s, i) == Some((n, i + encode_int(n).len())),
{
    let enc = encode_int(n);
    if n >= 0 {
        let m0 = n as nat;
        lemma_dec_digits_props(m0);
        assert forall|k: int| 0 <= k < enc.len() implies is_digit(#[trigger] s[i + k]) by {
            assert(s.subrange(i, i + enc.len())[k] == s[i + k]);
        }
        assert(s[i + 0] == enc[0]) by {
            assert(s.subrange(i, i + enc.len())[0] == s[i + 0]);
        }
        assert(is_digit(s[i]));
        assert(s[i] != '-');
        lemma_digit_run_end_exact(s, i, enc.len() as int);
        let e = digit_run_end(s, i);
        assert(s.subrange(i, e) == enc);
        if n > 0 {
            assert(s[i] != '0');
        } else {
            assert(e == i + 1);
        }
    } else {
        let m0 = (-n) as nat;
        lemma_dec_digits_props(m0);
        lemma_occurs_concat(s, i, seq!['-'], dec_digits(m0));
        assert(s[i] == '-') by {
            assert(s.subrange(i, i + 1)[0] == s[i]);
        }
        let d0 = i + 1;
        let dd = dec_digits(m0);
        assert forall|k: int| 0 <= k < dd.len() implies is_digit(#[trigger] s[d0 + k]) by {
            assert(s.subrange(d0, d0 + dd.len())[k] == s[d0 + k]);
        }
        lemma_digit_run_end_exact(s, d0, dd.len() as int);
        let e = digit_run_end(s, d0);
        assert(s.subrange(d0, e) == dd);
        assert(s[d0] == dd[0]) by {
            assert(s.subrange(d0, d0 + dd.len())[0] == s[d0 + 0]);
        }
        assert(m0 >= 1);
        assert(s[d0] != '0');
    }
}

/// An escaped text followed by its closing quote parses back to the text.
pub proof fn lemma_parse_string_body_encode(s: Seq<char>, i: int, text: Seq<char>)
    requires
        occurs_at(s, i, escape_string(text) + seq!['"']),
    ensures
        parse_string_body(s, i) == Some((text, i + escape_string(text).len() + 1)),
    decreases text.len(),
{
    if text.len() == 0 {
        assert(s[i] == '"') by {
            assert(s.subrange(i, i + 1)[0] == s[i]);
        }
    } else {
        let c = text[0];
        let rest = text.drop_first();
        let ec = escape_char(c);
        assert(escape_string(text) + seq!['"'] =~= ec + (escape_string(rest) + seq!['"']));
        lemma_occurs_concat(s, i, ec, escape_string(rest) + seq!['"']);
        let i2 = i + ec.len();
        lemma_parse_string_body_encode(s, i2, rest);
        assert forall|k: int| 0 <= k < ec.len() implies s[i + k] == ec[k] by {
            assert(s.subrange(i, i + ec.len())[k] == s[i + k]);
        }
        assert(seq![c] + rest =~= text);
        if c == '"' || c == '\\' {
            assert(s[i + 0] == '\\' && s[i + 1] == c);
            assert(is_single_escape(s[i + 1]));
            assert(unescape_single(c) == c);
        } else if c == '\u{8}' {
            assert(s[i + 0] == '\\' && s[i + 1] == 'b');
        } else if c == '\t' {
            assert(s[i + 0] == '\\' && s[i + 1] == 't');
        } else if c == '\n' {
            assert(s[i + 0] == '\\' && s[i + 1] == 'n');
        } else if c == '\u{c}' {
            assert(s[i + 0] == '\\' && s[i + 1] == 'f');
        } else if c == '\r' {
            assert(s[i + 0] == '\\' && s[i + 1] == 'r');
        } else if (c as u32) < 32 {
            let w = c as u32;
            let hi = (w / 16) as nat;
            let lo = (w % 16) as nat;
            assert(w / 16 * 16 + w % 16 == w && w % 16 < 16) by (nonlinear_arith)
                requires
                    w < 32,
            ;
            lemma_hex_char_val(hi);
            lemma_hex_char_val(lo);
            assert(s[i + 0] == '\\' && s[i + 1] == 'u' && s[i + 2] == '0' && s[i + 3] == '0'
                && s[i + 4] == hex_char(hi) && s[i + 5] == hex_char(lo));
            assert(!is_single_escape('u'));
            let u = hex_val(s[i + 2]) * 4096 + hex_val(s[i + 3]) * 256 + hex_val(s[i + 4]) * 16
                + hex_val(s[i + 5]);
            assert(u == c as u32);
            assert(u as u32 == c as u32);
            vstd::utf8::char_u32_cast(c, u as u32);
            assert((u as u32) as char == c);
            assert(hex4_val(s, i + 2) == Some(u));
            assert(parse_unicode_escape(s, i + 2) == Some((c, i + 6)));
        } else {
            assert(s[i + 0] == c);
        }
    }
}

/// An encoded task parses back to itself.
pub proof fn lemma_parse_task_encode(s: Seq<char>, i: int, t: TaskView)
    requires
        occurs_at(s, i, encode_task(t)),
        task_view_wf(t),
    ensures
        parse_task(s, i) == Some((t, i + encode_task(t).len())),
{
    reveal_strlit("{\"text\":\"");
    reveal_strlit("{\"text\":");
    reveal_strlit("\",\"created_at\":");
    reveal_strlit(",\"created_at\":");
    reveal_strlit("}");
    let open_lit = "{\"text\":\""@;
    let head = "{\"text\":"@;
    let close_lit = "\",\"created_at\":"@;
    let sep = ",\"created_at\":"@;
    let esc = escape_string(t.text);
    let ei = encode_int(t.created_at);
    let brace = "}"@;
    // Peel the five pieces of the encoding off from the left.
    let p1 = open_lit + esc;
    let p2 = p1 + close_lit;
    let p3 = p2 + ei;
    assert(occurs_at(s, i, p3 + brace));
    lemma_occurs_concat(s, i, p3, brace);
    lemma_occurs_concat(s, i, p2, ei);
    lemma_occurs_concat(s, i, p1, close_lit);
    lemma_occurs_concat(s, i, open_lit, esc);
    // The object's opening, including the quote that starts the text.
    assert(open_lit =~= head + seq!['"']);
    lemma_occurs_concat(s, i, head, seq!['"']);
    let j1 = i + head.len();
    assert(parse_exact(s, i, head) == Some(j1));
    assert(s[j1] == '"') by {
        assert(s.subrange(j1, j1 + 1)[0] == s[j1 + 0]);
    }
    // The text, closed by the first character of the separator literal.
    let j2 = j1 + 2 + esc.len();
    assert(close_lit =~= seq!['"'] + sep);
    lemma_occurs_concat(s, i + p1.len(), seq!['"'], sep);
    assert(s[j2 - 1] == '"') by {
        assert(s.subrange(i + p1.len(), i + p1.len() + 1)[0] == s[i + p1.len() + 0]);
    }
    assert(occurs_at(s, j1 + 1, esc + seq!['"'])) by {
        lemma_occurs_concat(s, j1 + 1, esc, seq!['"']);
    }
    lemma_parse_string_body_encode(s, j1 + 1, t.text);
    assert(parse_string(s, j1) == Some((t.text, j2)));
    // The separator, the integer, and the closing brace.
    reveal_strlit("\"text\"");
    reveal_strlit("\"created_at\"");
    let tname = "\"text\""@;
    let cname = "\"created_at\""@;
    let j3 = j2 + sep.len();
    let j4 = j3 + ei.len();
    assert(s[j4] == '}') by {
        assert(s.subrange(i + p3.len(), i + p3.len() + 1)[0] == s[i + p3.len() + 0]);
    }
    assert(!is_digit('}'));
    lemma_parse_int_encode(s, j3, t.created_at);
    // The object's first member, in the order the encoding writes.
    assert(head =~= seq!['{'] + (tname + seq![':']));
    lemma_occurs_concat(s, i, seq!['{'], tname + seq![':']);
    lemma_occurs_concat(s, i + 1, tname, seq![':']);
    assert(s[i] == '{') by {
        assert(s.subrange(i, i + 1)[0] == s[i + 0]);
    }
    assert(parse_char(s, i, '{') == Some(i + 1));
    assert(s[i + 1] == '"') by {
        assert(s.subrange(i + 1, i + 1 + tname.len())[0] == s[i + 1 + 0]);
    }
    assert(skip_ws(s, i + 1) == i + 1);
    assert(parse_exact(s, i + 1, tname) == Some(i + 7));
    assert(s[i + 7] == ':') by {
        assert(s.subrange(i + 7, i + 8)[0] == s[i + 7 + 0]);
    }
    assert(skip_ws(s, i + 7) == i + 7);
    assert(parse_char(s, i + 7, ':') == Some(j1));
    assert(skip_ws(s, j1) == j1);
    assert(parse_member_prefix(s, i + 1, tname) == Some(j1));
    // The second member.
    assert(sep =~= seq![','] + (cname + seq![':']));
    lemma_occurs_concat(s, j2, seq![','], cname + seq![':']);
    lemma_occurs_concat(s, j2 + 1, cname, seq![':']);
    assert(s[j2] == ',') by {
        assert(s.subrange(j2, j2 + 1)[0] == s[j2 + 0]);
    }
    assert(skip_ws(s, j2) == j2);
    assert(parse_char(s, j2, ',') == Some(j2 + 1));
    assert(s[j2 + 1] == '"') by {
        assert(s.subrange(j2 + 1, j2 + 1 + cname.len())[0] == s[j2 + 1 + 0]);
    }
    assert(skip_ws(s, j2 + 1) == j2 + 1);
    assert(parse_exact(s, j2 + 1, cname) == Some(j2 + 13));
    assert(s[j2 + 13] == ':') by {
        assert(s.subrange(j2 + 13, j2 + 14)[0] == s[j2 + 13 + 0]);
    }
    assert(skip_ws(s, j2 + 13) == j2 + 13);
    assert(parse_char(s, j2 + 13, ':') == Some(j3));
    assert(s[j3] == ei[0]) by {
        assert(s.subrange(j3, j3 + ei.len())[0] == s[j3 + 0]);
    }
    assert(!is_ws(ei[0])) by {
        if t.created_at < 0 {
            assert(ei[0] == '-');
        } else {
            lemma_dec_digits_props(t.created_at as nat);
            assert(is_digit(ei[0]));
        }
    }
    assert(skip_ws(s, j3) == j3);
    assert(parse_member_prefix(s, j2 + 1, cname) == Some(j3));
    // The closing brace.
    assert(skip_ws(s, j4) == j4);
    assert(parse_char(s, j4, '}') == Some(j4 + 1));
    assert(parse_task_body(s, i + 1) == Some(
        (TaskView { text: t.text, created_at: t.created_at }, j4 + 1),
    ));
    assert(parse_task(s, i) == Some((TaskView { text: t.text, created_at: t.created_at }, j4
        + 1)));
    assert(TaskView { text: t.text, created_at: t.created_at } == t);
    assert(i + encode_task(t).len() == j4 + 1);
}

/// Every task view in the sequence fits an actual task.
pub open spec fn task_views_wf(ts: Seq<TaskView>) -> bool {
    forall|k: int| 0 <= k < ts.len() ==> task_view_wf(#[trigger] ts[k])
}

/// An encoded array tail parses back to its tasks.
pub proof fn lemma_parse_tasks_rest_encode(s: Seq<char>, i: int, ts: Seq<TaskView>)
    requires
        occurs_at(s, i, encode_rest(ts)),
        task_views_wf(ts),
    ensures
        parse_tasks_rest(s, i) == Some((ts, i + encode_rest(ts).len())),
    decreases ts.len(),
{
    if ts.len() == 0 {
        assert(s[i] == ']') by {
            assert(s.subrange(i, i + 1)[0] == s[i]);
        }
        assert(skip_ws(s, i) == i);
    } else {
        let t = ts[0];
        let rest = ts.drop_first();
        assert(encode_rest(ts) =~= seq![','] + (encode_task(t) + encode_rest(rest)));
        lemma_occurs_concat(s, i, seq![','], encode_task(t) + encode_rest(rest));
        assert(s[i] == ',') by {
            assert(s.subrange(i, i + 1)[0] == s[i]);
        }
        assert(skip_ws(s, i) == i);
        lemma_occurs_concat(s, i + 1, encode_task(t), encode_rest(rest));
        assert(s[i + 1] == '{') by {
            reveal_strlit("{\"text\":\"");
            assert(s.subrange(i + 1, i + 1 + encode_task(t).len())[0] == s[i + 1 + 0]);
        }
        assert(skip_ws(s, i + 1) == i + 1);
        assert(task_view_wf(t));
        lemma_parse_task_encode(s, i + 1, t);
        let j: int = i + 1 + encode_task(t).len() as int;
        assert(task_views_wf(rest)) by {
            assert forall|k: int| 0 <= k < rest.len() implies task_view_wf(#[trigger] rest[k]) by {
                assert(rest[k] == ts[k + 1]);
            }
        }
        lemma_parse_tasks_rest_encode(s, j, rest);
        assert(seq![t] + rest =~= ts);
    }
}

/// The round trip: parsing an encoded task list gives exactly that list.
/// Together with the contracts of the serializing and parsing functions
/// this says that whatever the journal writes it reads back unchanged.
pub proof fn lemma_parse_encode_tasks(ts: Seq<TaskView>)
    requires
        task_views_wf(ts),
    ensures
        parse_tasks(encode_tasks(ts)) == Some(ts),
{
    if ts.len() == 0 {
        let s = encode_tasks(ts);
        assert(s == seq!['[', ']']);
        assert(skip_ws(s, 0) == 0 && skip_ws(s, 1) == 1 && skip_ws(s, 2) == 2);
        assert(parse_tasks(s) == Some(Seq::<TaskView>::empty()));
        assert(Seq::<TaskView>::empty() =~= ts);
    } else {
        lemma_parse_encode_tasks_cons(ts);
    }
}

/// The round trip for a list with at least one task.
#[verifier::rlimit(100)]
#[verifier::spinoff_prover]
proof fn lemma_parse_encode_tasks_cons(ts: Seq<TaskView>)
    requires
        task_views_wf(ts),
        ts.len() > 0,
    ensures
        parse_tasks(encode_tasks(ts)) == Some(ts),
{
    let s = encode_tasks(ts);
    {
        let t = ts[0];
        let rest = ts.drop_first();
        assert(s =~= seq!['['] + (encode_task(t) + encode_rest(rest)));
        assert(occurs_at(s, 0, seq!['['] + (encode_task(t) + encode_rest(rest)))) by {
            assert(s.subrange(0, s.len() as int) =~= s);
        }
        lemma_occurs_concat(s, 0, seq!['['], encode_task(t) + encode_rest(rest));
        assert(s[0] == '[') by {
            assert(s.subrange(0, 1)[0] == s[0]);
        }
        assert(skip_ws(s, 0) == 0);
        lemma_occurs_concat(s, 1, encode_task(t), encode_rest(rest));
        assert(s[1] == '{') by {
            reveal_strlit("{\"text\":\"");
            assert(s.subrange(1int, 1 + encode_task(t).len() as int)[0int] == s[1int]);
        }
        assert(skip_ws(s, 1) == 1);
        lemma_parse_task_encode(s, 1, t);
        let j: int = 1 + encode_task(t).len() as int;
        assert(task_views_wf(rest)) by {
            assert forall|k: int| 0 <= k < rest.len() implies task_view_wf(#[trigger] rest[k]) by {
                assert(rest[k] == ts[k + 1]);
            }
        }
        lemma_parse_tasks_rest_encode(s, j, rest);
        let k = j + encode_rest(rest).len();
        assert(k == s.len());
        assert(skip_ws(s, k) == k);
        assert(seq![t] + rest =~= ts);
        assert(s.len() > 0);
        assert(parse_char(s, 0, '[') == Some(1int));
        assert(s[1] != ']');
        lemma_parse_tasks_unfold(s, t, rest, j, k);
    }
}

/// Reads `parse_tasks` off its pieces, once they are known.
proof fn lemma_parse_tasks_unfold(s: Seq<char>, t: TaskView, ts2: Seq<TaskView>, j: int, k: int)
    requires
        skip_ws(s, 0) == 0,
        s.len() > 0,
        parse_char(s, 0, '[') == Some(1int),
        skip_ws(s, 1) == 1,
        1 < s.len(),
        s[1] != ']',
        parse_task(s, 1) == Some((t, j)),
        parse_tasks_rest(s, j) == Some((ts2, k)),
        skip_ws(s, k) == s.len(),
    ensures
        parse_tasks(s) == Some(seq![t] + ts2),
{
}

/// No two different task lists share an encoding: the file's text
/// determines the tasks. Follows from the round trip.
pub proof fn lemma_encode_tasks_injective(ts1: Seq<TaskView>, ts2: Seq<TaskView>)
    requires
        task_views_wf(ts1),
        task_views_wf(ts2),
        encode_tasks(ts1) == encode_tasks(ts2),
    ensures
        ts1 == ts2,
{
    lemma_parse_encode_tasks(ts1);
    lemma_parse_encode_tasks(ts2);
}

} // verus!
