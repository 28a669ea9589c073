//! The journal store's three operations on a file's text: append a task,
//! remove one by its one-based position, and render the listing. Each takes
//! the file's current text and hands back either the new text to write or
//! the listing to print; reading and writing the file itself is the
//! caller's business.
use vstd::prelude::*;

use crate::codec::{collect_tasks, push_dec, push_str_chars, serialize_tasks};
use crate::errors::JournalError;
use crate::ext;
use crate::json::{dec_digits, encode_tasks, parse_tasks};
use crate::task::{renderable_timestamp, views_of, Task, TaskView};

verus! {

// ---------------------------------------------------------------------
// What a listing looks like
// ---------------------------------------------------------------------

/// The display column width that task text is padded to.
pub open spec fn display_width() -> nat {
    50
}

/// The task text padded on the right with spaces to the column width;
/// longer text stays as it is.
pub open spec fn pad_text(s: Seq<char>) -> Seq<char> {
    if s.len() >= display_width() {
        s
    } else {
        s + Seq::new((display_width() - s.len()) as nat, |q: int| ' ')
    }
}

/// One listing line: the one-based position, the padded text, and the
/// task's creation time rendered in local time.
pub open spec fn line_of(pos: nat, t: TaskView, local: Seq<char>) -> Seq<char> {
    dec_digits(pos) + ": "@ + pad_text(t.text) + " ["@ + local + "]\n"@
}

/// The listing lines for the tasks from index `k` on.
pub open spec fn listing_from(ts: Seq<TaskView>, locals: Seq<Seq<char>>, k: int) -> Seq<char>
    decreases ts.len() - k,
{
    if k < 0 || k >= ts.len() {
        Seq::empty()
    } else {
        line_of((k + 1) as nat, ts[k], locals[k]) + listing_from(ts, locals, k + 1)
    }
}

/// The whole listing of a task list, given the local-time rendering of
/// each task's creation time.
pub open spec fn listing_of(ts: Seq<TaskView>, locals: Seq<Seq<char>>) -> Seq<char> {
    listing_from(ts, locals, 0)
}

/// What the listing says when the journal holds no tasks.
pub open spec fn empty_notice() -> Seq<char> {
    "Task list is empty!\n"@
}

// ---------------------------------------------------------------------
// Rendering
// ---------------------------------------------------------------------

/// Appends every character of `s`.
fn push_chars(out: &mut Vec<char>, s: &str)
    ensures
        final(out)@ == old(out)@ + s@,
{
    let ghost out0 = out@;
    let cs = ext::chars_of_str(s);
    let mut k: usize = 0;
    while k < cs.len()
        invariant
            k <= cs@.len(),
            cs@ == s@,
            out@ == out0 + cs@.subrange(0, k as int),
        decreases cs@.len() - k,
    {
        let c = cs[k];
        out.push(c);
        proof {
            assert(out0 + cs@.subrange(0, k as int) + seq![cs@[k as int]] =~= out0 + cs@.subrange(
                0,
                k + 1,
            ));
        }
        k += 1;
    }
    proof {
        assert(cs@.subrange(0, cs@.len() as int) =~= s@);
    }
}

/// Appends the task text padded to the column width.
fn push_padded(out: &mut Vec<char>, text: &str)
    ensures
        final(out)@ == old(out)@ + pad_text(text@),
{
    let ghost out0 = out@;
    push_chars(out, text);
    let len = text.unicode_len();
    let mut p: usize = len;
    while p < 50
        invariant
            len == text@.len(),
            len <= p <= 50 || (p == len && p >= 50),
            out@ == out0 + text@ + Seq::new((p - len) as nat, |q: int| ' '),
        decreases 50 - p,
    {
        out.push(' ');
        proof {
            assert(Seq::new((p + 1 - len) as nat, |q: int| ' ') =~= Seq::new(
                (p - len) as nat,
                |q: int| ' ',
            ).push(' '));
            assert(out0 + text@ + Seq::new((p - len) as nat, |q: int| ' ').push(' ') =~= out0
                + text@ + Seq::new((p + 1 - len) as nat, |q: int| ' '));
        }
        p += 1;
    }
    proof {
        if text@.len() >= 50 {
            assert(Seq::new(0, |q: int| ' ') =~= Seq::<char>::empty());
            assert(out0 + text@ + Seq::<char>::empty() =~= out0 + pad_text(text@));
        } else {
            assert(out0 + text@ + Seq::new((50 - text@.len()) as nat, |q: int| ' ') =~= out0
                + pad_text(text@));
        }
    }
}

/// Appends one listing line for the task at the given one-based position,
/// with its creation time already rendered as `local`.
fn push_line(out: &mut Vec<char>, position: u64, task: &Task, local: &str)
    ensures
        final(out)@ == old(out)@ + line_of(position as nat, task@, local@),
{
    push_dec(out, position);
    push_str_chars(out, ": ");
    push_padded(out, task.text.as_str());
    push_str_chars(out, " [");
    push_chars(out, local);
    push_str_chars(out, "]\n");
    proof {
        assert(old(out)@ + dec_digits(position as nat) + ": "@ + pad_text(task.text@) + " ["@
            + local@ + "]\n"@ =~= old(out)@ + line_of(position as nat, task@, local@));
    }
}

/// One listing line, exactly as [`line_of`] lays it out.
pub fn render_line(position: u64, task: &Task, local: &str) -> (r: String)
    ensures
        r@ == line_of(position as nat, task@, local@),
{
    let mut buf: Vec<char> = Vec::new();
    push_line(&mut buf, position, task, local);
    proof {
        assert(Seq::<char>::empty() + line_of(position as nat, task@, local@) =~= line_of(
            position as nat,
            task@,
            local@,
        ));
    }
    ext::string_from_chars(&buf)
}

/// The whole listing for the given tasks, one line each, with the given
/// local-time rendering of each creation time.
pub fn render_listing(tasks: &Vec<Task>, locals: &Vec<String>) -> (r: String)
    requires
        locals@.len() == tasks@.len(),
    ensures
        r@ == listing_of(views_of(tasks@), locals@.map_values(|s: String| s@)),
{
    let ghost ts = views_of(tasks@);
    let ghost ls = locals@.map_values(|s: String| s@);
    let mut buf: Vec<char> = Vec::new();
    let mut k: usize = 0;
    while k < tasks.len()
        invariant
            k <= tasks@.len(),
            ts == views_of(tasks@),
            ls == locals@.map_values(|s: String| s@),
            locals@.len() == tasks@.len(),
            buf@ + listing_from(ts, ls, k as int) == listing_of(ts, ls),
        decreases tasks@.len() - k,
    {
        let ghost pre = buf@;
        let position = (k as u64) + 1;
        push_line(&mut buf, position, &tasks[k], locals[k].as_str());
        proof {
            assert(ts[k as int] == tasks@[k as int]@);
            assert(ls[k as int] == locals@[k as int]@);
            assert(listing_from(ts, ls, k as int) == line_of((k + 1) as nat, ts[k as int], ls[
            k as int]) + listing_from(ts, ls, k + 1));
            assert(buf@ + listing_from(ts, ls, k + 1) =~= pre + listing_from(ts, ls, k as int));
        }
        k += 1;
    }
    proof {
        assert(listing_from(ts, ls, tasks@.len() as int) == Seq::<char>::empty());
        assert(buf@ =~= buf@ + Seq::<char>::empty());
    }
    ext::string_from_chars(&buf)
}

// ---------------------------------------------------------------------
// The three operations
// ---------------------------------------------------------------------

/// Appends a task: the new file text is exactly the old task list with
/// `task` at its end, re-encoded; malformed text is rejected unchanged.
pub fn add_task(contents: &str, task: Task) -> (r: Result<String, JournalError>)
    ensures
        match parse_tasks(contents@) {
            Some(ts) => r matches Ok(o) && o@ == encode_tasks(ts.push(task@)),
            None => r == Err::<String, JournalError>(JournalError::MalformedJson),
        },
{
    let mut tasks = match collect_tasks(contents) {
        Ok(t) => t,
        Err(e) => {
            return Err(e);
        },
    };
    let ghost ts0 = views_of(tasks@);
    tasks.push(task);
    proof {
        assert(views_of(tasks@) =~= ts0.push(task@));
    }
    Ok(serialize_tasks(&tasks))
}

/// Removes the task at the one-based `position`: the new file text is the
/// old list without that task, later tasks shifted down one position.
/// Position zero and positions past the end are invalid; malformed text
/// is rejected.
pub fn complete_task(contents: &str, position: usize) -> (r: Result<String, JournalError>)
    ensures
        match parse_tasks(contents@) {
            Some(ts) => {
                &&& (1 <= position <= ts.len()) ==> (r matches Ok(o) && o@ == encode_tasks(
                    ts.remove(position - 1),
                ))
                &&& !(1 <= position <= ts.len()) ==> r == Err::<String, JournalError>(
                    JournalError::InvalidPosition,
                )
            },
            None => r == Err::<String, JournalError>(JournalError::MalformedJson),
        },
{
    let mut tasks = match collect_tasks(contents) {
        Ok(t) => t,
        Err(e) => {
            return Err(e);
        },
    };
    if position == 0 || position > tasks.len() {
        return Err(JournalError::InvalidPosition);
    }
    let ghost ts0 = views_of(tasks@);
    tasks.remove(position - 1);
    proof {
        assert(views_of(tasks@) =~= ts0.remove(position - 1));
    }
    Ok(serialize_tasks(&tasks))
}

/// Renders the listing: the empty notice for an empty journal, else one
/// line per task in file order with one-based positions. The journal text
/// is only read — listing never changes it, however often it runs — which
/// the shared borrow already enforces. The local-time text in each line
/// comes from the machine's time zone, so the contract pins the listing's
/// shape through [`listing_of`] and leaves the time text abstract.
/// Success is owed whenever the text parses and every creation time lies
/// in [`renderable_timestamp`]'s range; a time outside it is reported as
/// malformed data, the same class of failure that reading such a value
/// raises in a journal reader that decodes timestamps into dates. So
/// whether listing succeeds, which error it gives, and everything in the
/// listing except the local-time text are functions of the contents
/// alone; only the time rendering may differ between two calls, should
/// the machine's time zone change in between.
pub fn list_tasks(contents: &str) -> (r: Result<String, JournalError>)
    ensures
        match parse_tasks(contents@) {
            Some(ts) => {
                &&& (forall|q: int|
                    0 <= q < ts.len() ==> renderable_timestamp(
                        #[trigger] ts[q].created_at,
                    )) ==> {
                    &&& (ts.len() == 0 ==> (r matches Ok(o) && o@ == empty_notice()))
                    &&& (ts.len() > 0 ==> (r matches Ok(o) && (exists|ls: Seq<Seq<char>>|
                        ls.len() == ts.len() && o@ == listing_of(ts, ls))))
                }
                &&& !(forall|q: int|
                    0 <= q < ts.len() ==> renderable_timestamp(#[trigger] ts[q].created_at))
                    ==> r == Err::<String, JournalError>(JournalError::MalformedJson)
            },
            None => r == Err::<String, JournalError>(JournalError::MalformedJson),
        },
{
    let tasks = match collect_tasks(contents) {
        Ok(t) => t,
        Err(e) => {
            return Err(e);
        },
    };
    if tasks.len() == 0 {
        let s = "Task list is empty!\n".to_owned();
        proof {
            assert(s@ == empty_notice());
        }
        return Ok(s);
    }
    let mut locals: Vec<String> = Vec::new();
    let mut k: usize = 0;
    while k < tasks.len()
        invariant
            k <= tasks@.len(),
            locals@.len() == k,
            tasks@.len() > 0,
            parse_tasks(contents@) == Some(views_of(tasks@)),
            forall|q: int|
                0 <= q < k ==> renderable_timestamp(#[trigger] views_of(tasks@)[q].created_at),
        decreases tasks@.len() - k,
    {
        proof {
            assert(views_of(tasks@)[k as int] == tasks@[k as int]@);
        }
        match ext::format_local_timestamp(tasks[k].created_at) {
            Some(s) => locals.push(s),
            None => {
                proof {
                    assert(!renderable_timestamp(views_of(tasks@)[k as int].created_at));
                }
                return Err(JournalError::MalformedJson);
            },
        }
        k += 1;
    }
    let out = render_listing(&tasks, &locals);
    proof {
        let ts = views_of(tasks@);
        let ls = locals@.map_values(|s: String| s@);
        assert(exists|l2: Seq<Seq<char>>| l2.len() == ts.len() && out@ == listing_of(ts, l2)) by {
            assert(ls.len() == ts.len() && out@ == listing_of(ts, ls));
        }
    }
    Ok(out)
}

} // verus!
