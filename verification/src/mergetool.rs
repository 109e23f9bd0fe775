//! State and decisions of the interactive merge-conflict resolver: which
//! conflict is shown, how far each side is scrolled, which side was chosen.

use vstd::prelude::*;

verus! {

/// A conflicting file with the text of both sides, line by line.
#[derive(Debug)]
pub struct ConflictFile {
    pub path: String,
    pub ours_blob: String,
    pub theirs_blob: String,
    pub ours_lines: Vec<String>,
    pub theirs_lines: Vec<String>,
}

/// The side chosen for a conflict.
#[derive(Debug, Clone, Copy, PartialEq, Eq, Structural)]
pub enum Resolution {
    Ours,
    Theirs,
}

/// What the user asked for.
#[derive(Debug, Clone, Copy, PartialEq, Eq, Structural)]
pub enum Command {
    Quit,
    ScrollDown,
    ScrollUp,
    NextConflict,
    PrevConflict,
    SelectOurs,
    SelectTheirs,
    Apply,
}

/// The resolver's state.
#[derive(Debug)]
pub struct App {
    pub conflicts: Vec<ConflictFile>,
    pub current: usize,
    pub scroll_ours: u16,
    pub scroll_theirs: u16,
    pub resolutions: Vec<Option<Resolution>>,
    pub quit: bool,
    pub applied: bool,
}

/// Lines hidden below the panels when scrolled to the top: the last five stay visible.
pub open spec fn spec_max_scroll(ours_len: int, theirs_len: int) -> u16 {
    let m = if ours_len >= theirs_len { ours_len } else { theirs_len };
    ((if m > 5 { m - 5 } else { 0 }) % 65536) as u16
}

/// The scroll limit does not depend on which side is ours: swapping the two
/// sides leaves it unchanged. It follows the longer side: scrolled to the
/// limit, the last five lines of the longer side are still in view, and
/// the limit is 0 only when neither side is longer than five lines.
pub proof fn lemma_max_scroll_covers_longer_side(ours_len: int, theirs_len: int)
    requires
        0 <= ours_len,
        0 <= theirs_len,
    ensures
        spec_max_scroll(ours_len, theirs_len) == spec_max_scroll(theirs_len, ours_len),
        ours_len <= 65540 && theirs_len <= 65540 ==> {
            let m = spec_max_scroll(ours_len, theirs_len) as int;
            &&& m + 5 >= ours_len
            &&& m + 5 >= theirs_len
            &&& (m + 5 == ours_len || m + 5 == theirs_len || (m == 0 && ours_len <= 5 && theirs_len <= 5))
        },
{
}

/// Count of chosen sides.
pub open spec fn count_resolved(rs: Seq<Option<Resolution>>) -> nat
    decreases rs.len(),
{
    if rs.len() == 0 {
        0
    } else {
        count_resolved(rs.drop_last()) + if rs.last() is Some { 1nat } else { 0nat }
    }
}

impl App {
    /// There is a conflict, `current` points at one, and there is one
    /// resolution slot per conflict.
    pub open spec fn wf(&self) -> bool {
        &&& self.conflicts@.len() > 0
        &&& self.current < self.conflicts@.len()
        &&& self.resolutions@.len() == self.conflicts@.len()
    }

    /// The state for a list of conflicts: first one shown, nothing chosen.
    pub fn new(conflicts: Vec<ConflictFile>) -> (app: Self)
        requires
            conflicts@.len() > 0,
        ensures
            app.wf(),
            app.conflicts@ == conflicts@,
            app.current == 0,
            app.scroll_ours == 0 && app.scroll_theirs == 0,
            forall|i: int| 0 <= i < app.resolutions@.len() ==> app.resolutions@[i] is None,
            !app.quit && !app.applied,
    {
        let n = conflicts.len();
        let mut resolutions: Vec<Option<Resolution>> = Vec::new();
        let mut i: usize = 0;
        while i < n
            invariant
                i <= n,
                resolutions@.len() == i,
                forall|k: int| 0 <= k < i ==> resolutions@[k] is None,
            decreases n - i,
        {
            resolutions.push(None);
            i = i + 1;
        }
        App { conflicts, current: 0, scroll_ours: 0, scroll_theirs: 0, resolutions, quit: false, applied: false }
    }

    pub fn current_conflict(&self) -> (c: &ConflictFile)
        requires
            self.wf(),
        ensures
            *c == self.conflicts@[self.current as int],
    {
        &self.conflicts[self.current]
    }

    /// How far the panels may scroll for the current conflict.
    pub fn max_scroll(&self) -> (m: u16)
        requires
            self.wf(),
        ensures
            m == spec_max_scroll(
                self.conflicts@[self.current as int].ours_lines@.len() as int,
                self.conflicts@[self.current as int].theirs_lines@.len() as int,
            ),
    {
        let c = self.current_conflict();
        let a = c.ours_lines.len();
        let b = c.theirs_lines.len();
        let m = if a >= b { a } else { b };
        let s = if m > 5 { m - 5 } else { 0 };
        ((s as u64) % 65536) as u16
    }

    /// Scrolls both panels down one line, each up to the maximum.
    pub fn scroll_down(&mut self)
        requires
            old(self).wf(),
        ensures
            final(self).wf(),
            ({
                let m = spec_max_scroll(
                    old(self).conflicts@[old(self).current as int].ours_lines@.len() as int,
                    old(self).conflicts@[old(self).current as int].theirs_lines@.len() as int,
                );
                &&& final(self).scroll_ours == if old(self).scroll_ours < m { (old(self).scroll_ours + 1) as u16 } else { old(self).scroll_ours }
                &&& final(self).scroll_theirs == if old(self).scroll_theirs < m { (old(self).scroll_theirs + 1) as u16 } else { old(self).scroll_theirs }
            }),
            final(self).conflicts == old(self).conflicts,
            final(self).current == old(self).current,
            final(self).resolutions == old(self).resolutions,
            final(self).quit == old(self).quit && final(self).applied == old(self).applied,
    {
        let max = self.max_scroll();
        if self.scroll_ours < max {
            self.scroll_ours = self.scroll_ours + 1;
        }
        if self.scroll_theirs < max {
            self.scroll_theirs = self.scroll_theirs + 1;
        }
    }

    /// Scrolls both panels up one line, stopping at the top.
    pub fn scroll_up(&mut self)
        ensures
            final(self).scroll_ours == if old(self).scroll_ours > 0 { (old(self).scroll_ours - 1) as u16 } else { 0 },
            final(self).scroll_theirs == if old(self).scroll_theirs > 0 { (old(self).scroll_theirs - 1) as u16 } else { 0 },
            final(self).conflicts == old(self).conflicts,
            final(self).current == old(self).current,
            final(self).resolutions == old(self).resolutions,
            final(self).quit == old(self).quit && final(self).applied == old(self).applied,
    {
        self.scroll_ours = if self.scroll_ours > 0 { self.scroll_ours - 1 } else { 0 };
        self.scroll_theirs = if self.scroll_theirs > 0 { self.scroll_theirs - 1 } else { 0 };
    }

    /// Shows the next conflict, if there is one, from the top.
    pub fn next_conflict(&mut self)
        requires
            old(self).wf(),
        ensures
            final(self).wf(),
            old(self).current + 1 < old(self).conflicts@.len() ==> final(self).current == old(self).current + 1
                && final(self).scroll_ours == 0 && final(self).scroll_theirs == 0,
            old(self).current + 1 >= old(self).conflicts@.len() ==> final(self).current == old(self).current
                && final(self).scroll_ours == old(self).scroll_ours && final(self).scroll_theirs == old(self).scroll_theirs,
            final(self).conflicts == old(self).conflicts,
            final(self).resolutions == old(self).resolutions,
            final(self).quit == old(self).quit && final(self).applied == old(self).applied,
    {
        if self.current < self.conflicts.len() - 1 {
            self.current = self.current + 1;
            self.scroll_ours = 0;
            self.scroll_theirs = 0;
        }
    }

    /// Shows the previous conflict, if there is one, from the top.
    pub fn prev_conflict(&mut self)
        requires
            old(self).wf(),
        ensures
            final(self).wf(),
            old(self).current > 0 ==> final(self).current == old(self).current - 1 && final(self).scroll_ours == 0
                && final(self).scroll_theirs == 0,
            old(self).current == 0 ==> final(self).current == 0 && final(self).scroll_ours == old(self).scroll_ours
                && final(self).scroll_theirs == old(self).scroll_theirs,
            final(self).conflicts == old(self).conflicts,
            final(self).resolutions == old(self).resolutions,
            final(self).quit == old(self).quit && final(self).applied == old(self).applied,
    {
        if self.current > 0 {
            self.current = self.current - 1;
            self.scroll_ours = 0;
            self.scroll_theirs = 0;
        }
    }

    /// Chooses our side for the current conflict.
    pub fn select_ours(&mut self)
        requires
            old(self).wf(),
        ensures
            final(self).wf(),
            final(self).resolutions@ == old(self).resolutions@.update(old(self).current as int, Some(Resolution::Ours)),
            final(self).conflicts == old(self).conflicts,
            final(self).current == old(self).current,
            final(self).scroll_ours == old(self).scroll_ours && final(self).scroll_theirs == old(self).scroll_theirs,
            final(self).quit == old(self).quit && final(self).applied == old(self).applied,
    {
        let i = self.current;
        self.resolutions.set(i, Some(Resolution::Ours));
    }

    /// Chooses their side for the current conflict.
    pub fn select_theirs(&mut self)
        requires
            old(self).wf(),
        ensures
            final(self).wf(),
            final(self).resolutions@ == old(self).resolutions@.update(old(self).current as int, Some(Resolution::Theirs)),
            final(self).conflicts == old(self).conflicts,
            final(self).current == old(self).current,
            final(self).scroll_ours == old(self).scroll_ours && final(self).scroll_theirs == old(self).scroll_theirs,
            final(self).quit == old(self).quit && final(self).applied == old(self).applied,
    {
        let i = self.current;
        self.resolutions.set(i, Some(Resolution::Theirs));
    }

    /// Whether every conflict has a chosen side.
    pub fn all_resolved(&self) -> (r: bool)
        ensures
            r == forall|i: int| 0 <= i < self.resolutions@.len() ==> (#[trigger] self.resolutions@[i]) is Some,
    {
        let mut i: usize = 0;
        while i < self.resolutions.len()
            invariant
                i <= self.resolutions@.len(),
                forall|k: int| 0 <= k < i ==> (#[trigger] self.resolutions@[k]) is Some,
            decreases self.resolutions@.len() - i,
        {
            if self.resolutions[i].is_none() {
                return false;
            }
            i = i + 1;
        }
        true
    }

    /// How many conflicts have a chosen side.
    pub fn resolved_count(&self) -> (n: usize)
        ensures
            n == count_resolved(self.resolutions@),
    {
        let mut n: usize = 0;
        let mut i: usize = 0;
        while i < self.resolutions.len()
            invariant
                i <= self.resolutions@.len(),
                n == count_resolved(self.resolutions@.take(i as int)),
                n <= i,
            decreases self.resolutions@.len() - i,
        {
            assert(self.resolutions@.take(i + 1).drop_last() =~= self.resolutions@.take(i as int));
            if self.resolutions[i].is_some() {
                n = n + 1;
            }
            i = i + 1;
        }
        assert(self.resolutions@.take(self.resolutions@.len() as int) =~= self.resolutions@);
        n
    }

    /// Applies a command. Returns true when the chosen sides should be
    /// written out now: on `Apply` with every conflict resolved, after which
    /// the resolver quits. `Apply` with unresolved conflicts does nothing.
    pub fn handle_command(&mut self, cmd: Command) -> (apply_now: bool)
        requires
            old(self).wf(),
        ensures
            final(self).wf(),
            apply_now == (cmd == Command::Apply && forall|i: int|
                0 <= i < old(self).resolutions@.len() ==> (#[trigger] old(self).resolutions@[i]) is Some),
            apply_now ==> final(self).quit,
            cmd == Command::Quit ==> final(self).quit,
            command_step(*old(self), *final(self), cmd),
    {
        match cmd {
            Command::Quit => {
                self.quit = true;
                false
            },
            Command::ScrollDown => {
                self.scroll_down();
                false
            },
            Command::ScrollUp => {
                self.scroll_up();
                false
            },
            Command::NextConflict => {
                self.next_conflict();
                false
            },
            Command::PrevConflict => {
                self.prev_conflict();
                false
            },
            Command::SelectOurs => {
                self.select_ours();
                false
            },
            Command::SelectTheirs => {
                self.select_theirs();
                false
            },
            Command::Apply => {
                if self.all_resolved() {
                    self.quit = true;
                    true
                } else {
                    false
                }
            },
        }
    }

    /// The blob chosen for conflict `i`, if a side was chosen.
    pub fn chosen_blob(&self, i: usize) -> (r: Option<&String>)
        requires
            self.wf(),
            i < self.conflicts@.len(),
        ensures
            self.resolutions@[i as int] == Some(Resolution::Ours) ==> r == Some(&self.conflicts@[i as int].ours_blob),
            self.resolutions@[i as int] == Some(Resolution::Theirs) ==> r == Some(&self.conflicts@[i as int].theirs_blob),
            self.resolutions@[i as int] is None ==> r is None,
    {
        match self.resolutions[i] {
            Some(Resolution::Ours) => Some(&self.conflicts[i].ours_blob),
            Some(Resolution::Theirs) => Some(&self.conflicts[i].theirs_blob),
            None => None,
        }
    }
}

/// What a command does to the resolver's state: only the shown conflict,
/// the scroll offsets, the chosen sides and the quit flag change, each as
/// the method of the same name says.
pub open spec fn command_step(a: App, b: App, cmd: Command) -> bool {
    let same_view = b.current == a.current && b.scroll_ours == a.scroll_ours && b.scroll_theirs == a.scroll_theirs;
    let n = a.conflicts@.len();
    &&& b.conflicts == a.conflicts
    &&& b.applied == a.applied
    &&& match cmd {
        Command::Quit => same_view && b.resolutions == a.resolutions && b.quit,
        Command::ScrollDown => {
            let m = spec_max_scroll(
                a.conflicts@[a.current as int].ours_lines@.len() as int,
                a.conflicts@[a.current as int].theirs_lines@.len() as int,
            );
            &&& b.current == a.current
            &&& b.scroll_ours == if a.scroll_ours < m { (a.scroll_ours + 1) as u16 } else { a.scroll_ours }
            &&& b.scroll_theirs == if a.scroll_theirs < m { (a.scroll_theirs + 1) as u16 } else { a.scroll_theirs }
            &&& b.resolutions == a.resolutions && b.quit == a.quit
        },
        Command::ScrollUp => {
            &&& b.current == a.current
            &&& b.scroll_ours == if a.scroll_ours > 0 { (a.scroll_ours - 1) as u16 } else { 0 }
            &&& b.scroll_theirs == if a.scroll_theirs > 0 { (a.scroll_theirs - 1) as u16 } else { 0 }
            &&& b.resolutions == a.resolutions && b.quit == a.quit
        },
        Command::NextConflict => {
            &&& if a.current + 1 < n {
                b.current == a.current + 1 && b.scroll_ours == 0 && b.scroll_theirs == 0
            } else {
                same_view
            }
            &&& b.resolutions == a.resolutions && b.quit == a.quit
        },
        Command::PrevConflict => {
            &&& if a.current > 0 {
                b.current == a.current - 1 && b.scroll_ours == 0 && b.scroll_theirs == 0
            } else {
                same_view
            }
            &&& b.resolutions == a.resolutions && b.quit == a.quit
        },
        Command::SelectOurs => same_view && b.resolutions@ == a.resolutions@.update(
            a.current as int,
            Some(Resolution::Ours),
        ) && b.quit == a.quit,
        Command::SelectTheirs => same_view && b.resolutions@ == a.resolutions@.update(
            a.current as int,
            Some(Resolution::Theirs),
        ) && b.quit == a.quit,
        Command::Apply => same_view && b.resolutions == a.resolutions && b.quit == (a.quit || forall|i: int|
            0 <= i < a.resolutions@.len() ==> (#[trigger] a.resolutions@[i]) is Some),
    }
}

/// Line i of a text, or the empty line past its end.
pub open spec fn line_or_empty(lines: Seq<String>, i: int) -> Seq<char> {
    if i < lines.len() {
        lines[i]@
    } else {
        Seq::empty()
    }
}

/// Side-by-side lines for display: for each line number (from 1) up to the
/// longer side, the line of each side (empty past its end) and whether the
/// two differ.
pub fn diff_lines<'a>(ours: &'a [String], theirs: &'a [String]) -> (r: (Vec<(usize, &'a str, bool)>, Vec<(usize, &'a str, bool)>))
    ensures
        r.0@.len() == (if ours@.len() >= theirs@.len() { ours@.len() } else { theirs@.len() }),
        r.1@.len() == r.0@.len(),
        forall|i: int|
            0 <= i < r.0@.len() ==> {
                let changed = line_or_empty(ours@, i) != line_or_empty(theirs@, i);
                &&& (#[trigger] r.0@[i]).0 == i + 1
                &&& r.0@[i].1@ == line_or_empty(ours@, i)
                &&& r.0@[i].2 == changed
                &&& r.1@[i].0 == i + 1
                &&& r.1@[i].1@ == line_or_empty(theirs@, i)
                &&& r.1@[i].2 == changed
            },
{
    let max = if ours.len() >= theirs.len() { ours.len() } else { theirs.len() };
    let mut ours_out: Vec<(usize, &'a str, bool)> = Vec::new();
    let mut theirs_out: Vec<(usize, &'a str, bool)> = Vec::new();
    let mut i: usize = 0;
    while i < max
        invariant
            max == (if ours@.len() >= theirs@.len() { ours@.len() } else { theirs@.len() }),
            i <= max,
            ours_out@.len() == i,
            theirs_out@.len() == i,
            forall|k: int|
                0 <= k < i ==> {
                    let changed = line_or_empty(ours@, k) != line_or_empty(theirs@, k);
                    &&& (#[trigger] ours_out@[k]).0 == k + 1
                    &&& ours_out@[k].1@ == line_or_empty(ours@, k)
                    &&& ours_out@[k].2 == changed
                    &&& theirs_out@[k].0 == k + 1
                    &&& theirs_out@[k].1@ == line_or_empty(theirs@, k)
                    &&& theirs_out@[k].2 == changed
                },
        decreases max - i,
    {
        let o: &str = if i < ours.len() { ours[i].as_str() } else { "" };
        let t: &str = if i < theirs.len() { theirs[i].as_str() } else { "" };
        proof {
            reveal_strlit("");
            assert(o@ =~= line_or_empty(ours@, i as int));
            assert(t@ =~= line_or_empty(theirs@, i as int));
        }
        let changed = !crate::text::str_eq(o, t);
        ours_out.push((i + 1, o, changed));
        theirs_out.push((i + 1, t, changed));
        i = i + 1;
    }
    (ours_out, theirs_out)
}

} // verus!
