//! Reading and writing the journal text: the executable counterpart of the
//! grammar in [`crate::json`]. [`serialize_tasks`] produces exactly
//! [`encode_tasks`] of the task list, and [`collect_tasks`] returns exactly
//! what [`crate::json::parse_tasks`] says the text means.
use vstd::prelude::*;

use crate::errors::JournalError;
use crate::ext;
use crate::json::{
    dec_digits, digit_char, digit_run_end, digits_val, encode_int, encode_rest, encode_task,
    encode_tasks, escape_char, escape_string, hex_char, hex_val, is_digit, is_hex_digit,
    is_single_escape, lemma_digit_run_end_at_least, lemma_digit_run_end_bounds,
    lemma_digit_run_end_exact, lemma_digits_val_prefix, lemma_digits_val_push,
    hex4_val, is_ws, lemma_escape_string_push, lemma_parse_task_bounds, parse_char, parse_exact,
    parse_int,
    parse_member_prefix, parse_string, parse_string_body, parse_task, parse_tasks,
    parse_tasks_rest, parse_unicode_escape, skip_ws, unescape_single,
};
use crate::task::{views_of, Task, TaskView};

verus! {

// ---------------------------------------------------------------------
// Writing
// ---------------------------------------------------------------------

/// Appends every character of an ASCII literal.
pub(crate) fn push_str_chars(out: &mut Vec<char>, s: &str)
    ensures
        final(out)@ == old(out)@ + s@,
{
    let ghost out0 = out@;
    let n = s.unicode_len();
    let mut k: usize = 0;
    while k < n
        invariant
            k <= n,
            n == s@.len(),
            out@ == out0 + s@.subrange(0, k as int),
        decreases n - k,
    {
        let c = s.get_char(k);
        out.push(c);
        proof {
            assert(out0 + s@.subrange(0, k as int) + seq![s@[k as int]] =~= out0 + s@.subrange(
                0,
                k + 1,
            ));
        }
        k += 1;
    }
    proof {
        assert(out0 + s@.subrange(0, n as int) =~= out0 + s@);
    }
}

/// The character for a decimal digit value.
fn digit_char_of(d: u8) -> (c: char)
    requires
        d < 10,
    ensures
        c == digit_char(d as nat),
{
    (48 + d) as char
}

/// The lower-case hexadecimal character for a value below sixteen.
fn hex_char_of(d: u8) -> (c: char)
    requires
        d < 16,
    ensures
        c == hex_char(d as nat),
{
    if d < 10 {
        (48 + d) as char
    } else {
        (87 + d) as char
    }
}

/// Appends the decimal digits of `n`, most significant first.
pub(crate) fn push_dec(out: &mut Vec<char>, n: u64)
    ensures
        final(out)@ == old(out)@ + dec_digits(n as nat),
    decreases n,
{
    if n >= 10 {
        push_dec(out, n / 10);
    }
    let d = digit_char_of((n % 10) as u8);
    out.push(d);
    proof {
        if n >= 10 {
            assert(old(out)@ + dec_digits((n / 10) as nat) + seq![digit_char((n % 10) as nat)]
                =~= old(out)@ + dec_digits(n as nat));
        } else {
            assert(old(out)@ + seq![digit_char(n as nat)] =~= old(out)@ + dec_digits(n as nat));
        }
    }
}

/// Appends the decimal form of a 64-bit integer.
fn push_int(out: &mut Vec<char>, n: i64)
    ensures
        final(out)@ == old(out)@ + encode_int(n as int),
{
    if n < 0 {
        out.push('-');
        let m: u64 = if n == i64::MIN {
            9223372036854775808u64
        } else {
            (-n) as u64
        };
        assert(m as nat == (-(n as int)) as nat);
        push_dec(out, m);
        proof {
            assert(old(out)@ + seq!['-'] + dec_digits(m as nat) =~= old(out)@ + (seq!['-']
                + dec_digits(m as nat)));
        }
    } else {
        push_dec(out, n as u64);
    }
}

/// Appends the string-literal body for `text`, escaping as the format asks.
fn push_escaped(out: &mut Vec<char>, text: &str)
    ensures
        final(out)@ == old(out)@ + escape_string(text@),
{
    let ghost out0 = out@;
    let cs = ext::chars_of_str(text);
    let mut k: usize = 0;
    while k < cs.len()
        invariant
            k <= cs.len(),
            cs@ == text@,
            out@ == out0 + escape_string(cs@.subrange(0, k as int)),
        decreases cs.len() - k,
    {
        let ghost pre = out@;
        let c = cs[k];
        let u = c as u32;
        if c == '"' {
            out.push('\\');
            out.push('"');
        } else if c == '\\' {
            out.push('\\');
            out.push('\\');
        } else if c == '\u{8}' {
            out.push('\\');
            out.push('b');
        } else if c == '\t' {
            out.push('\\');
            out.push('t');
        } else if c == '\n' {
            out.push('\\');
            out.push('n');
        } else if c == '\u{c}' {
            out.push('\\');
            out.push('f');
        } else if c == '\r' {
            out.push('\\');
            out.push('r');
        } else if u < 32 {
            out.push('\\');
            out.push('u');
            out.push('0');
            out.push('0');
            out.push(hex_char_of((u / 16) as u8));
            out.push(hex_char_of((u % 16) as u8));
        } else {
            out.push(c);
        }
        proof {
            if c == '"' || c == '\\' {
                assert(out@ =~= pre + escape_char(c));
            } else if c == '\u{8}' {
                assert(escape_char(c) == seq!['\\', 'b']);
                assert(out@ =~= pre + escape_char(c));
            } else if c == '\t' {
                assert(escape_char(c) == seq!['\\', 't']);
                assert(out@ =~= pre + escape_char(c));
            } else if c == '\n' {
                assert(escape_char(c) == seq!['\\', 'n']);
                assert(out@ =~= pre + escape_char(c));
            } else if c == '\u{c}' {
                assert(escape_char(c) == seq!['\\', 'f']);
                assert(out@ =~= pre + escape_char(c));
            } else if c == '\r' {
                assert(escape_char(c) == seq!['\\', 'r']);
                assert(out@ =~= pre + escape_char(c));
            } else if u < 32 {
                assert(out@ =~= pre + escape_char(c));
            } else {
                assert(escape_char(c) == seq![c]);
                assert(out@ =~= pre + escape_char(c));
            }
            assert(cs@.subrange(0, k + 1) =~= cs@.subrange(0, k as int).push(c));
            lemma_escape_string_push(cs@.subrange(0, k as int), c);
            assert(out0 + escape_string(cs@.subrange(0, k as int)) + escape_char(c) =~= out0
                + escape_string(cs@.subrange(0, k + 1)));
        }
        k += 1;
    }
    proof {
        assert(cs@.subrange(0, cs@.len() as int) =~= text@);
    }
}

/// Appends one encoded task object.
fn push_task(out: &mut Vec<char>, t: &Task)
    ensures
        final(out)@ == old(out)@ + encode_task(t@),
{
    push_str_chars(out, "{\"text\":\"");
    push_escaped(out, t.text.as_str());
    push_str_chars(out, "\",\"created_at\":");
    push_int(out, t.created_at);
    out.push('}');
    proof {
        reveal_strlit("}");
        assert(seq!['}'] =~= "}"@);
        assert(old(out)@ + "{\"text\":\""@ + escape_string(t.text@) + "\",\"created_at\":"@
            + encode_int(t.created_at as int) + seq!['}'] =~= old(out)@ + encode_task(t@));
    }
}

/// The journal file's exact text for a task list: the encoding that
/// [`crate::json::encode_tasks`] describes.
pub fn serialize_tasks(tasks: &Vec<Task>) -> (out: String)
    ensures
        out@ == encode_tasks(views_of(tasks@)),
{
    let ghost vs = views_of(tasks@);
    let mut buf: Vec<char> = Vec::new();
    buf.push('[');
    if tasks.len() == 0 {
        buf.push(']');
        proof {
            assert(buf@ =~= encode_tasks(vs));
        }
    } else {
        push_task(&mut buf, &tasks[0]);
        let mut k: usize = 1;
        proof {
            assert(vs[0] == tasks@[0]@);
            assert(vs.skip(1) =~= vs.drop_first());
            assert(encode_tasks(vs) =~= buf@ + encode_rest(vs.skip(1)));
        }
        while k < tasks.len()
            invariant
                1 <= k <= tasks.len(),
                vs == views_of(tasks@),
                vs.len() == tasks@.len(),
                encode_tasks(vs) == buf@ + encode_rest(vs.skip(k as int)),
            decreases tasks.len() - k,
        {
            let ghost pre = buf@;
            buf.push(',');
            push_task(&mut buf, &tasks[k]);
            proof {
                let rest = vs.skip(k as int);
                assert(rest[0] == vs[k as int]);
                assert(vs[k as int] == tasks@[k as int]@);
                assert(rest.drop_first() =~= vs.skip(k + 1));
                assert(encode_rest(rest) == seq![','] + encode_task(rest[0]) + encode_rest(
                    vs.skip(k + 1),
                ));
                assert(buf@ + encode_rest(vs.skip(k + 1)) =~= pre + encode_rest(rest));
            }
            k += 1;
        }
        buf.push(']');
        proof {
            assert(vs.skip(tasks@.len() as int) =~= Seq::<crate::task::TaskView>::empty());
            assert(encode_rest(vs.skip(tasks@.len() as int)) == seq![']']);
            assert(encode_tasks(vs) =~= buf@);
        }
    }
    ext::string_from_chars(&buf)
}

// ---------------------------------------------------------------------
// Reading
// ---------------------------------------------------------------------

/// A parse result with `p` prepended to the parsed text, failure kept.
spec fn opt_prepend(p: Seq<char>, o: Option<(Seq<char>, int)>) -> Option<(Seq<char>, int)> {
    match o {
        Some((v, j)) => Some((p + v, j)),
        None => None,
    }
}

proof fn lemma_opt_prepend_assoc(p: Seq<char>, q: Seq<char>, o: Option<(Seq<char>, int)>)
    ensures
        opt_prepend(p, opt_prepend(q, o)) == opt_prepend(p + q, o),
{
    match o {
        Some((v, j)) => {
            assert(p + (q + v) =~= (p + q) + v);
        },
        None => {},
    }
}

/// Whether `c` is a decimal digit.
fn is_digit_of(c: char) -> (b: bool)
    ensures
        b == is_digit(c),
{
    let u = c as u32;
    48 <= u && u <= 57
}

/// The value of a hexadecimal digit of either case, if `c` is one.
fn hex_val_of(c: char) -> (r: Option<u8>)
    ensures
        r is Some <==> is_hex_digit(c),
        r matches Some(d) ==> d as nat == hex_val(c) && d < 16,
{
    let u = c as u32;
    if 48 <= u && u <= 57 {
        Some((u - 48) as u8)
    } else if 97 <= u && u <= 102 {
        Some((u - 87) as u8)
    } else if 65 <= u && u <= 70 {
        Some((u - 55) as u8)
    } else {
        None
    }
}

/// The character a one-letter escape stands for, if `c` names one.
fn unescape_one(c: char) -> (r: Option<char>)
    ensures
        r is Some <==> is_single_escape(c),
        r matches Some(u) ==> u == unescape_single(c),
{
    if c == '"' || c == '\\' || c == '/' {
        Some(c)
    } else if c == 'b' {
        Some('\u{8}')
    } else if c == 't' {
        Some('\t')
    } else if c == 'n' {
        Some('\n')
    } else if c == 'f' {
        Some('\u{c}')
    } else if c == 'r' {
        Some('\r')
    } else {
        None
    }
}

/// The position after `pat` if it stands at `i`, as `parse_exact` says.
fn expect_lit(v: &Vec<char>, i: usize, pat: &str) -> (r: Option<usize>)
    ensures
        r is Some <==> parse_exact(v@, i as int, pat@) is Some,
        r matches Some(j) ==> parse_exact(v@, i as int, pat@) == Some(j as int) && i <= j
            <= v.len(),
{
    let n = pat.unicode_len();
    if i > v.len() || n > v.len() - i {
        return None;
    }
    let mut k: usize = 0;
    while k < n
        invariant
            i + n <= v.len(),
            n == pat@.len(),
            k <= n,
            forall|q: int| 0 <= q < k ==> v@[i + q] == #[trigger] pat@[q],
        decreases n - k,
    {
        if v[i + k] != pat.get_char(k) {
            proof {
                assert(v@.subrange(i as int, i + n)[k as int] == v@[i + k]);
            }
            return None;
        }
        k += 1;
    }
    proof {
        assert(v@.subrange(i as int, i + n) =~= pat@);
    }
    Some(i + n)
}

/// The value of the four hexadecimal digits at `i`, as `hex4_val` says.
fn hex4_at(v: &Vec<char>, i: usize) -> (r: Option<u32>)
    ensures
        r is Some <==> hex4_val(v@, i as int) is Some,
        r matches Some(u) ==> hex4_val(v@, i as int) == Some(u as nat) && u <= 0xFFFF,
{
    if v.len() < 4 || i > v.len() - 4 {
        return None;
    }
    let h0 = hex_val_of(v[i]);
    let h1 = hex_val_of(v[i + 1]);
    let h2 = hex_val_of(v[i + 2]);
    let h3 = hex_val_of(v[i + 3]);
    if h0.is_none() || h1.is_none() || h2.is_none() || h3.is_none() {
        return None;
    }
    Some(
        (h0.unwrap() as u32) * 4096 + (h1.unwrap() as u32) * 256 + (h2.unwrap() as u32) * 16 + (
        h3.unwrap() as u32),
    )
}

/// The character of a `\u` escape whose digits start at `i`, as
/// `parse_unicode_escape` says: one scalar value or a surrogate pair.
fn read_unicode_escape(v: &Vec<char>, i: usize) -> (r: Option<(char, usize)>)
    ensures
        r is Some <==> parse_unicode_escape(v@, i as int) is Some,
        r matches Some(p) ==> parse_unicode_escape(v@, i as int) == Some((p.0, p.1 as int)) && p.1
            <= v.len(),
{
    let u = match hex4_at(v, i) {
        Some(u) => u,
        None => {
            return None;
        },
    };
    let n = v.len();
    proof {
        assert(i + 4 <= n);
    }
    if u < 0xD800 || u >= 0xE000 {
        let och = ext::char_from_u32(u);
        let ch = och.unwrap();
        Some((ch, i + 4))
    } else if u < 0xDC00 {
        if v.len() - (i + 4) < 2 || v[i + 4] != '\\' || v[i + 5] != 'u' {
            return None;
        }
        let u2 = match hex4_at(v, i + 6) {
            Some(u2) => u2,
            None => {
                return None;
            },
        };
        if u2 < 0xDC00 || u2 >= 0xE000 {
            return None;
        }
        let code: u32 = 0x10000 + (u - 0xD800) * 0x400 + (u2 - 0xDC00);
        let och = ext::char_from_u32(code);
        let ch = och.unwrap();
        Some((ch, i + 10))
    } else {
        None
    }
}

/// A JSON string literal at `i`, as `parse_string` says.
fn parse_string_at(v: &Vec<char>, i: usize) -> (r: Option<(Vec<char>, usize)>)
    ensures
        r is Some <==> parse_string(v@, i as int) is Some,
        r matches Some(p) ==> parse_string(v@, i as int) == Some((p.0@, p.1 as int)) && p.1
            <= v.len(),
{
    if i >= v.len() || v[i] != '"' {
        return None;
    }
    let mut acc: Vec<char> = Vec::new();
    let mut k: usize = i + 1;
    loop
        invariant
            i + 1 <= k <= v.len(),
            parse_string(v@, i as int) == parse_string_body(v@, i + 1),
            parse_string_body(v@, i + 1) == opt_prepend(acc@, parse_string_body(v@, k as int)),
        decreases v.len() - k,
    {
        if k >= v.len() {
            return None;
        }
        let c = v[k];
        if c == '"' {
            proof {
                assert(acc@ + Seq::<char>::empty() =~= acc@);
            }
            return Some((acc, k + 1));
        } else if c == '\\' {
            if k + 1 >= v.len() {
                return None;
            }
            let e = v[k + 1];
            if e == 'u' {
                let (ch, j2) = match read_unicode_escape(v, k + 2) {
                    Some(p) => p,
                    None => {
                        return None;
                    },
                };
                proof {
                    let b2 = parse_string_body(v@, j2 as int);
                    assert(parse_string_body(v@, k as int) == opt_prepend(seq![ch], b2));
                    lemma_opt_prepend_assoc(acc@, seq![ch], b2);
                    assert(acc@.push(ch) =~= acc@ + seq![ch]);
                }
                acc.push(ch);
                k = j2;
            } else {
                match unescape_one(e) {
                    Some(un) => {
                        proof {
                            let b2 = parse_string_body(v@, k + 2);
                            assert(parse_string_body(v@, k as int) == opt_prepend(seq![un], b2));
                            lemma_opt_prepend_assoc(acc@, seq![un], b2);
                            assert(acc@.push(un) =~= acc@ + seq![un]);
                        }
                        acc.push(un);
                        k += 2;
                    },
                    None => {
                        return None;
                    },
                }
            }
        } else if (c as u32) < 32 {
            return None;
        } else {
            proof {
                let b2 = parse_string_body(v@, k + 1);
                assert(parse_string_body(v@, k as int) == opt_prepend(seq![c], b2));
                lemma_opt_prepend_assoc(acc@, seq![c], b2);
                assert(acc@.push(c) =~= acc@ + seq![c]);
            }
            acc.push(c);
            k += 1;
        }
    }
}

/// A canonical 64-bit integer at `i`, as `parse_int` says.
fn parse_int_at(v: &Vec<char>, i: usize) -> (r: Option<(i64, usize)>)
    ensures
        r is Some <==> parse_int(v@, i as int) is Some,
        r matches Some(p) ==> parse_int(v@, i as int) == Some((p.0 as int, p.1 as int)) && p.1
            <= v.len(),
{
    let neg = i < v.len() && v[i] == '-';
    let d0 = if neg {
        i + 1
    } else {
        i
    };
    let limit: u64 = if neg {
        9223372036854775808
    } else {
        9223372036854775807
    };
    let mut k: usize = d0;
    let mut m: u64 = 0;
    if d0 > v.len() {
        return None;
    }
    while k < v.len() && is_digit_of(v[k])
        invariant
            d0 <= k <= v.len(),
            d0 as int == if neg {
                i + 1
            } else {
                i as int
            },
            neg <==> (i < v@.len() && v@[i as int] == '-'),
            limit == if neg {
                0x8000000000000000u64
            } else {
                0x7FFFFFFFFFFFFFFFu64
            },
            forall|q: int| d0 <= q < k ==> is_digit(#[trigger] v@[q]),
            m as nat == digits_val(v@.subrange(d0 as int, k as int)),
            m <= limit,
        decreases v.len() - k,
    {
        let c = v[k];
        let d = (c as u32 - 48) as u64;
        proof {
            lemma_digits_val_push(v@.subrange(d0 as int, k as int), c);
            assert(v@.subrange(d0 as int, k + 1) =~= v@.subrange(d0 as int, k as int).push(c));
        }
        if m > limit / 10 || (m == limit / 10 && d > limit % 10) {
            proof {
                assert(m * 10 + d > limit) by (nonlinear_arith)
                    requires
                        m > limit / 10 || (m == limit / 10 && d > limit % 10),
                        limit >= 10,
                ;
                lemma_digit_run_end_bounds(v@, d0 as int);
                lemma_digit_run_end_at_least(v@, d0 as int, k + 1);
                let e = digit_run_end(v@, d0 as int);
                lemma_digits_val_prefix(v@, d0 as int, k + 1, e);
                assert(digits_val(v@.subrange(d0 as int, e)) > limit);
            }
            return None;
        }
        proof {
            assert(m * 10 + d <= limit) by (nonlinear_arith)
                requires
                    m <= limit / 10,
                    m < limit / 10 || d <= limit % 10,
                    d <= 9,
            ;
        }
        m = m * 10 + d;
        k += 1;
    }
    proof {
        assert forall|q: int| 0 <= q < k - d0 implies is_digit(#[trigger] v@[d0 + q]) by {
            assert(is_digit(v@[d0 + q]));
        }
        lemma_digit_run_end_exact(v@, d0 as int, k - d0);
        assert(digit_run_end(v@, d0 as int) == k as int);
    }
    if k == d0 {
        return None;
    }
    if v[d0] == '0' && k > d0 + 1 {
        return None;
    }
    if neg {
        let n: i64 = if m == 9223372036854775808 {
            i64::MIN
        } else {
            -(m as i64)
        };
        Some((n, k))
    } else {
        Some((m as i64, k))
    }
}

/// Whether `c` is JSON whitespace.
fn is_ws_of(c: char) -> (b: bool)
    ensures
        b == is_ws(c),
{
    c == ' ' || c == '\t' || c == '\n' || c == '\r'
}

/// The first position at or after `i` holding no whitespace.
fn skip_ws_at(v: &Vec<char>, i: usize) -> (r: usize)
    requires
        i <= v.len(),
    ensures
        r as int == skip_ws(v@, i as int),
        i <= r <= v.len(),
{
    let mut k: usize = i;
    while k < v.len() && is_ws_of(v[k])
        invariant
            i <= k <= v.len(),
            skip_ws(v@, i as int) == skip_ws(v@, k as int),
        decreases v.len() - k,
    {
        k += 1;
    }
    k
}

/// The position after `c` if it stands at `i`, as `parse_char` says.
fn expect_char(v: &Vec<char>, i: usize, c: char) -> (r: Option<usize>)
    ensures
        r is Some <==> parse_char(v@, i as int, c) is Some,
        r matches Some(j) ==> parse_char(v@, i as int, c) == Some(j as int) && j <= v.len(),
{
    if i < v.len() && v[i] == c {
        Some(i + 1)
    } else {
        None
    }
}

/// A member's opening — its quoted name and colon, whitespace allowed
/// around both — as `parse_member_prefix` says.
fn member_prefix_at(v: &Vec<char>, i: usize, name: &str) -> (r: Option<usize>)
    requires
        i <= v.len(),
    ensures
        r is Some <==> parse_member_prefix(v@, i as int, name@) is Some,
        r matches Some(j) ==> parse_member_prefix(v@, i as int, name@) == Some(j as int) && j
            <= v.len(),
{
    let m = skip_ws_at(v, i);
    let j = match expect_lit(v, m, name) {
        Some(j) => j,
        None => {
            return None;
        },
    };
    let j2 = skip_ws_at(v, j);
    let k = match expect_char(v, j2, ':') {
        Some(k) => k,
        None => {
            return None;
        },
    };
    Some(skip_ws_at(v, k))
}

/// One task object at `i`, as `parse_task` says: the opening brace, the
/// two members in either order, and the closing brace.
fn parse_task_at(v: &Vec<char>, i: usize) -> (r: Option<(Task, usize)>)
    ensures
        r is Some <==> parse_task(v@, i as int) is Some,
        r matches Some(p) ==> parse_task(v@, i as int) == Some((p.0@, p.1 as int)) && p.1
            <= v.len(),
{
    let j0 = match expect_char(v, i, '{') {
        Some(j) => j,
        None => {
            return None;
        },
    };
    match member_prefix_at(v, j0, "\"text\"") {
        Some(j1) => {
            // The text first, then the creation time.
            let (text_chars, j2) = match parse_string_at(v, j1) {
                Some(p) => p,
                None => {
                    return None;
                },
            };
            let c2 = skip_ws_at(v, j2);
            let j3 = match expect_char(v, c2, ',') {
                Some(j) => j,
                None => {
                    return None;
                },
            };
            let j4 = match member_prefix_at(v, j3, "\"created_at\"") {
                Some(j) => j,
                None => {
                    return None;
                },
            };
            let (n, j5) = match parse_int_at(v, j4) {
                Some(p) => p,
                None => {
                    return None;
                },
            };
            let c4 = skip_ws_at(v, j5);
            let j6 = match expect_char(v, c4, '}') {
                Some(j) => j,
                None => {
                    return None;
                },
            };
            let text = ext::string_from_chars(&text_chars);
            Some((Task { text, created_at: n }, j6))
        },
        None => {
            // The creation time first, then the text.
            let j1 = match member_prefix_at(v, j0, "\"created_at\"") {
                Some(j) => j,
                None => {
                    return None;
                },
            };
            let (n, j2) = match parse_int_at(v, j1) {
                Some(p) => p,
                None => {
                    return None;
                },
            };
            let c2 = skip_ws_at(v, j2);
            let j3 = match expect_char(v, c2, ',') {
                Some(j) => j,
                None => {
                    return None;
                },
            };
            let j4 = match member_prefix_at(v, j3, "\"text\"") {
                Some(j) => j,
                None => {
                    return None;
                },
            };
            let (text_chars, j5) = match parse_string_at(v, j4) {
                Some(p) => p,
                None => {
                    return None;
                },
            };
            let c4 = skip_ws_at(v, j5);
            let j6 = match expect_char(v, c4, '}') {
                Some(j) => j,
                None => {
                    return None;
                },
            };
            let text = ext::string_from_chars(&text_chars);
            Some((Task { text, created_at: n }, j6))
        },
    }
}

/// The task list a journal file's text holds, exactly as
/// [`crate::json::parse_tasks`] reads it; anything else is malformed.
pub fn collect_tasks(contents: &str) -> (r: Result<Vec<Task>, JournalError>)
    ensures
        match parse_tasks(contents@) {
            Some(ts) => r matches Ok(out) && views_of(out@) == ts,
            None => r == Err::<Vec<Task>, JournalError>(JournalError::MalformedJson),
        },
{
    let v = ext::chars_of_str(contents);
    let i0 = skip_ws_at(&v, 0);
    if i0 == v.len() {
        let out: Vec<Task> = Vec::new();
        proof {
            assert(views_of(out@) =~= Seq::<TaskView>::empty());
        }
        return Ok(out);
    }
    let j0 = match expect_char(&v, i0, '[') {
        Some(j) => j,
        None => {
            return Err(JournalError::MalformedJson);
        },
    };
    let i1 = skip_ws_at(&v, j0);
    if i1 < v.len() && v[i1] == ']' {
        if skip_ws_at(&v, i1 + 1) == v.len() {
            let out: Vec<Task> = Vec::new();
            proof {
                assert(views_of(out@) =~= Seq::<TaskView>::empty());
            }
            return Ok(out);
        }
        return Err(JournalError::MalformedJson);
    }
    let (t0, k0) = match parse_task_at(&v, i1) {
        Some(p) => p,
        None => {
            return Err(JournalError::MalformedJson);
        },
    };
    let mut out: Vec<Task> = Vec::new();
    out.push(t0);
    let mut k: usize = k0;
    proof {
        assert(views_of(out@) =~= seq![t0@]);
    }
    loop
        invariant
            k <= v.len(),
            v@ == contents@,
            match parse_tasks(v@) {
                Some(ts) => parse_tasks_rest(v@, k as int) matches Some((ts2, e)) && skip_ws(
                    v@,
                    e,
                ) == v@.len() && ts == views_of(out@) + ts2,
                None => (match parse_tasks_rest(v@, k as int) {
                    Some((ts2, e)) => skip_ws(v@, e) != v@.len(),
                    None => true,
                }),
            },
        decreases v.len() - k,
    {
        let kw = skip_ws_at(&v, k);
        if kw >= v.len() {
            return Err(JournalError::MalformedJson);
        }
        let c = v[kw];
        if c == ']' {
            if skip_ws_at(&v, kw + 1) == v.len() {
                proof {
                    assert(parse_tasks_rest(v@, k as int) == Some(
                        (Seq::<TaskView>::empty(), kw + 1),
                    ));
                    assert(views_of(out@) + Seq::<TaskView>::empty() =~= views_of(out@));
                }
                return Ok(out);
            }
            proof {
                assert(parse_tasks_rest(v@, k as int) == Some((Seq::<TaskView>::empty(), kw + 1)));
            }
            return Err(JournalError::MalformedJson);
        }
        if c != ',' {
            return Err(JournalError::MalformedJson);
        }
        let p1 = skip_ws_at(&v, kw + 1);
        let (t, j) = match parse_task_at(&v, p1) {
            Some(p) => p,
            None => {
                return Err(JournalError::MalformedJson);
            },
        };
        proof {
            lemma_parse_task_bounds(v@, p1 as int);
            let pre = views_of(out@);
            match parse_tasks_rest(v@, j as int) {
                Some((ts2, e)) => {
                    assert(parse_tasks_rest(v@, k as int) == Some((seq![t@] + ts2, e)));
                    assert(pre + (seq![t@] + ts2) =~= (pre + seq![t@]) + ts2);
                },
                None => {
                    assert(parse_tasks_rest(v@, k as int) is None);
                },
            }
            assert(views_of(out@.push(t)) =~= views_of(out@) + seq![t@]);
        }
        out.push(t);
        k = j;
    }
}

} // verus!
