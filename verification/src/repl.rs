//! What the read-eval-print loop decides for each line: stop, skip it or run it, and which
//! stack it carries to the next line.
use vstd::prelude::*;
use vstd::string::*;
use crate::text::{is_space, char_is_space, chars_of};
use crate::interpreter::{ExecutionResult, char_text};

verus! {

broadcast use vstd::string::group_string_axioms;

/// The index of the first character at or after `i` that is not white space, or `s.len()`.
pub open spec fn lead_end(s: Seq<char>, i: int) -> int
    decreases s.len() - i,
{
    if 0 <= i < s.len() && is_space(s[i]) {
        lead_end(s, i + 1)
    } else {
        i
    }
}

/// The index just after the last character before `j` that is not white space, or 0.
pub open spec fn trail_start(s: Seq<char>, j: int) -> int
    decreases j,
{
    if 0 < j <= s.len() && is_space(s[j - 1]) {
        trail_start(s, j - 1)
    } else {
        j
    }
}

/// `s` without the white space at its start and at its end, as `str::trim` gives it.
pub open spec fn trimmed(s: Seq<char>) -> Seq<char> {
    if lead_end(s, 0) >= s.len() {
        Seq::empty()
    } else {
        s.subrange(lead_end(s, 0), trail_start(s, s.len() as int))
    }
}

/// What the loop does with a line.
pub enum ReplAction {
    /// The line is `exit`: the session ends.
    Exit,
    /// The line is blank: nothing runs.
    Skip,
    /// The line's text, without surrounding white space, is a program to run.
    Run(String),
}

/// The action for `line`: `Exit` when it trims to `exit`, `Skip` when it trims to nothing,
/// else `Run` with the trimmed text.
pub fn repl_action(line: &str) -> (r: ReplAction)
    ensures
        match r {
            ReplAction::Exit => trimmed(line@) == "exit"@,
            ReplAction::Skip => trimmed(line@).len() == 0,
            ReplAction::Run(w) => w@ == trimmed(line@) && w@.len() > 0 && w@ != "exit"@,
        },
{
    let cs = chars_of(line);
    let n = cs.len();
    let ghost s = line@;
    let mut lo: usize = 0;
    while lo < n && char_is_space(cs[lo])
        invariant
            cs@ == s,
            n == s.len(),
            lo <= n,
            lead_end(s, lo as int) == lead_end(s, 0),
        decreases n - lo,
    {
        lo = lo + 1;
    }
    assert(lead_end(s, lo as int) == lo);
    if lo == n {
        return ReplAction::Skip;
    }
    let mut hi: usize = n;
    while hi > lo + 1 && char_is_space(cs[hi - 1])
        invariant
            cs@ == s,
            n == s.len(),
            lo < hi <= n,
            lo == lead_end(s, 0),
            !is_space(s[lo as int]),
            trail_start(s, hi as int) == trail_start(s, n as int),
        decreases hi,
    {
        hi = hi - 1;
    }
    if hi == lo + 1 {
        assert(trail_start(s, hi as int) == hi);
    }
    assert(trail_start(s, hi as int) == hi);
    let mut w = String::new();
    let mut i: usize = lo;
    while i < hi
        invariant
            cs@ == s,
            lo <= i <= hi <= n,
            n == s.len(),
            w@ == s.subrange(lo as int, i as int),
        decreases hi - i,
    {
        let c = char_text(cs[i]);
        w.append(c.as_str());
        assert(s.subrange(lo as int, i + 1) =~= s.subrange(lo as int, i as int) + seq![s[i as int]]);
        i = i + 1;
    }
    assert(w@ == trimmed(line@));
    proof {
        reveal_strlit("exit");
    }
    if hi - lo == 4 && cs[lo] == 'e' && cs[lo + 1] == 'x' && cs[lo + 2] == 'i' && cs[lo + 3] == 't' {
        assert(w@ =~= "exit"@);
        ReplAction::Exit
    } else {
        assert(w@ != "exit"@) by {
            if w@ == "exit"@ {
                assert(w@[0] == 'e' && w@[1] == 'x' && w@[2] == 'i' && w@[3] == 't');
            }
        }
        ReplAction::Run(w)
    }
}

/// After a line has run: the stack to carry to the next line and the value to show. A run
/// that succeeded carries its final stack and shows its top, if any; any other outcome
/// keeps the stack carried before and shows nothing.
pub fn repl_commit(carried: Vec<i64>, res: &ExecutionResult, after: &Vec<i64>) -> (r: (Vec<i64>, Option<i64>))
    ensures
        *res is Success ==> r.0@ == after@ && r.1 == (if after@.len() > 0 {
            Some(after@.last())
        } else {
            None
        }),
        !(*res is Success) ==> r.0@ == carried@ && r.1 is None,
{
    match res {
        ExecutionResult::Success => {
            let mut next: Vec<i64> = Vec::new();
            let mut i: usize = 0;
            while i < after.len()
                invariant
                    i <= after@.len(),
                    next@ == after@.take(i as int),
                decreases after@.len() - i,
            {
                next.push(after[i]);
                assert(after@.take(i + 1) =~= after@.take(i as int).push(after@[i as int]));
                i = i + 1;
            }
            assert(after@.take(after@.len() as int) =~= after@);
            let top = if next.len() > 0 {
                Some(next[next.len() - 1])
            } else {
                None
            };
            (next, top)
        },
        _ => (carried, None),
    }
}

} // verus!
