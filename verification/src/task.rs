//! The task record: a free-text description and its creation time in UTC
//! epoch seconds, the value that the journal file stores for each entry.
use vstd::prelude::*;

use crate::ext;

verus! {

/// One journal entry.
#[derive(Debug)]
pub struct Task {
    /// The task's description; any text, the empty string included.
    pub text: String,
    /// Creation time, UTC epoch seconds.
    pub created_at: i64,
}

/// The mathematical value of a [`Task`]: its text as a character sequence
/// and its creation time as an unbounded integer.
pub ghost struct TaskView {
    pub text: Seq<char>,
    pub created_at: int,
}

impl View for Task {
    type V = TaskView;

    open spec fn view(&self) -> TaskView {
        TaskView { text: self.text@, created_at: self.created_at as int }
    }
}

/// A task view that an actual [`Task`] can hold: the timestamp fits in
/// 64 signed bits.
pub open spec fn task_view_wf(t: TaskView) -> bool {
    i64::MIN <= t.created_at <= i64::MAX
}

/// The views of a sequence of tasks, in order.
pub open spec fn views_of(s: Seq<Task>) -> Seq<TaskView> {
    s.map_values(|t: Task| t@)
}

/// The UTC epoch seconds that can be rendered as a date and time: the
/// timestamps of the earliest and latest instants chrono represents
/// (roughly years -262143 and 262142).
pub open spec fn renderable_timestamp(secs: int) -> bool {
    -8334601228800 <= secs <= 8210266876799
}

impl Task {
    /// Makes a task with the given text, created now. The creation time is
    /// whatever the clock returns, but it always lies in the calendar's
    /// renderable range, so a journal this library writes can always be
    /// listed.
    pub fn new(text: String) -> (t: Task)
        ensures
            t@.text == text@,
            renderable_timestamp(t@.created_at),
    {
        let created_at = ext::now_timestamp();
        Task { text, created_at }
    }
}

} // verus!
