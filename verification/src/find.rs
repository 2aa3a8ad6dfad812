use crate::formatting::{decimal, push_decimal};
use crate::selection::{Cell, RectSelection, Selection};
use crate::state::EditableState;
use crate::text::{push_str, trim, trimmed};
use vstd::prelude::*;
use vstd::string::StrSliceExecFns;

verus! {

/// The state of the find panel: the query, the cells that match it, and the
/// match that is current.
pub struct FindState {
    pub query: String,
    pub matches: Vec<Cell>,
    pub index: Option<usize>,
}

/// Position of `cell` in `cells`, the first one.
pub open spec fn first_position(cells: Seq<Cell>, cell: Cell) -> Option<usize> {
    if cells.contains(cell) {
        Some((choose|i: int| 0 <= i < cells.len() && cells[i] == cell && forall|j: int|
            0 <= j < i ==> cells[j] != cell) as usize)
    } else {
        None
    }
}

/// The match after `current` going forward (`delta` not negative) or
/// backward, wrapping around.
pub open spec fn next_match(current: int, len: int, delta: isize) -> int {
    if delta < 0 {
        (current + len - 1) % len
    } else {
        (current + 1) % len
    }
}

fn position_of(cells: &Vec<Cell>, cell: Cell) -> (r: Option<usize>)
    ensures
        r == first_position(cells@, cell),
        r matches Some(p) ==> p < cells@.len() && cells@[p as int] == cell,
{
    let mut i: usize = 0;
    while i < cells.len()
        invariant
            i <= cells@.len(),
            forall|j: int| 0 <= j < i ==> cells@[j] != cell,
        decreases cells@.len() - i,
    {
        if cells[i] == cell {
            proof {
                let c = choose|k: int| 0 <= k < cells@.len() && cells@[k] == cell && forall|j: int|
                    0 <= j < k ==> cells@[j] != cell;
                assert(cells@[i as int] == cell);
                if c < i {
                    assert(cells@[c] != cell);
                } else if c > i {
                    assert(cells@[i as int] != cell);
                }
            }
            return Some(i);
        }
        i += 1;
    }
    None
}

impl FindState {
    /// The current match, when there is one, is one of the matches.
    pub open spec fn wf(self) -> bool {
        match self.index {
            Some(i) => i < self.matches@.len(),
            None => true,
        }
    }

    /// A find panel with no query and no matches.
    pub fn new() -> (s: Self)
        ensures
            s.wf(),
            s.query@.len() == 0,
            s.matches@.len() == 0,
            s.index is None,
    {
        FindState { query: String::new(), matches: Vec::new(), index: None }
    }

    /// Takes a new list of matches: the current match stays current when it
    /// is still a match; otherwise the first match becomes current, if any.
    pub fn recompute_find_matches(&mut self, matches: Vec<Cell>)
        requires
            old(self).wf(),
        ensures
            final(self).wf(),
            final(self).matches@ == matches@,
            final(self).query@ == old(self).query@,
            final(self).index == match old(self).index {
                Some(i) => match first_position(matches@, old(self).matches@[i as int]) {
                    Some(p) => Some(p),
                    None => if matches@.len() > 0 {
                        Some(0usize)
                    } else {
                        None
                    },
                },
                None => if matches@.len() > 0 {
                    Some(0usize)
                } else {
                    None
                },
            },
    {
        let previous = match self.index {
            Some(i) => Some(self.matches[i]),
            None => None,
        };
        let kept = match previous {
            Some(cell) => position_of(&matches, cell),
            None => None,
        };
        let next = match kept {
            Some(p) => Some(p),
            None => if matches.len() > 0 {
                Some(0)
            } else {
                None
            },
        };
        self.matches = matches;
        self.index = next;
    }

    /// Forgets the matches.
    pub fn clear_find_matches(&mut self)
        ensures
            final(self).wf(),
            final(self).matches@.len() == 0,
            final(self).index is None,
            final(self).query@ == old(self).query@,
    {
        self.matches = Vec::new();
        self.index = None;
    }

    /// The status line of the panel: no query, no matches, or which match
    /// of how many is current.
    pub fn find_status_text(&self) -> (s: String)
        requires
            self.wf(),
        ensures
            trimmed(self.query@).len() == 0 ==> s@ == "No query"@,
            trimmed(self.query@).len() > 0 && self.matches@.len() == 0 ==> s@ == "No matches"@,
            trimmed(self.query@).len() > 0 && self.matches@.len() > 0 ==> s@ == decimal(
                (match self.index {
                    Some(i) => i as nat,
                    None => 0nat,
                }) + 1,
            ) + " of "@ + decimal(self.matches@.len()) + " matches"@,
    {
        if trim(self.query.as_str()).unicode_len() == 0 {
            return "No query".to_owned();
        }
        let count = self.matches.len();
        if count == 0 {
            return "No matches".to_owned();
        }
        let shown = match self.index {
            Some(i) => i,
            None => 0,
        };
        let mut s = String::new();
        push_decimal(&mut s, shown + 1);
        push_str(&mut s, " of ");
        push_decimal(&mut s, count);
        push_str(&mut s, " matches");
        s
    }

    /// Makes the next match current (the previous one for a negative
    /// `delta`), wrapping around; with no matches nothing is current.
    pub fn step_find_match(&mut self, delta: isize)
        requires
            old(self).wf(),
        ensures
            final(self).wf(),
            final(self).matches@ == old(self).matches@,
            final(self).query@ == old(self).query@,
            old(self).matches@.len() == 0 ==> final(self).index is None,
            old(self).matches@.len() > 0 ==> final(self).index == Some(
                next_match(
                    match old(self).index {
                        Some(i) => i as int,
                        None => if delta < 0 {
                            0
                        } else {
                            old(self).matches@.len() - 1
                        },
                    },
                    old(self).matches@.len() as int,
                    delta,
                ) as usize,
            ),
    {
        let len = self.matches.len();
        if len == 0 {
            self.index = None;
            return;
        }
        let current = match self.index {
            Some(i) => i,
            None => if delta < 0 {
                0
            } else {
                len - 1
            },
        };
        let next = if delta < 0 {
            if current == 0 {
                len - 1
            } else {
                current - 1
            }
        } else if current + 1 == len {
            0
        } else {
            current + 1
        };
        proof {
            lemma_wrap(current as int, len as int);
        }
        self.index = Some(next);
    }

    /// The cell of the current match.
    pub fn current_find_match(&self) -> (c: Option<Cell>)
        requires
            self.wf(),
        ensures
            c == match self.index {
                Some(i) => Some(self.matches@[i as int]),
                None => None::<Cell>,
            },
    {
        match self.index {
            Some(i) => Some(self.matches[i]),
            None => None,
        }
    }

    /// Selects the cell of the current match, when there is one.
    pub fn activate_current_find_match(&self, state: &mut EditableState)
        requires
            self.wf(),
        ensures
            match self.index {
                Some(i) => final(state).selection == Selection::Cell(
                    RectSelection { anchor: self.matches@[i as int], focus: self.matches@[i as int] },
                ),
                None => final(state).selection == old(state).selection,
            },
            final(state).document == old(state).document,
            final(state).filter_text == old(state).filter_text,
            final(state).undo_stack == old(state).undo_stack,
            final(state).redo_stack == old(state).redo_stack,
            final(state).last_error == old(state).last_error,
    {
        match self.current_find_match() {
            Some(cell) => state.select_cell(cell.row, cell.column),
            None => {},
        }
    }

    /// Whether a cell is a match, and whether it is the current one.
    pub fn find_cell_state(&self, cell: Cell) -> (r: (bool, bool))
        ensures
            r.0 == self.matches@.contains(cell),
            r.1 == (match first_position(self.matches@, cell) {
                Some(p) => self.index == Some(p),
                None => false,
            }),
    {
        match position_of(&self.matches, cell) {
            Some(p) => (true, self.index == Some(p)),
            None => (false, false),
        }
    }
}

/// The wrapped steps from a match: one back, one forward.
proof fn lemma_wrap(current: int, len: int)
    requires
        0 <= current < len,
    ensures
        next_match(current, len, -1isize) == if current == 0 {
            len - 1
        } else {
            current - 1
        },
        next_match(current, len, 1isize) == if current + 1 == len {
            0
        } else {
            current + 1
        },
{
    if current + 1 < len {
        vstd::arithmetic::div_mod::lemma_small_mod((current + 1) as nat, len as nat);
    } else {
        vstd::arithmetic::div_mod::lemma_mod_self_0(len);
    }
    if current > 0 {
        vstd::arithmetic::div_mod::lemma_mod_add_multiples_vanish(current - 1, len);
        vstd::arithmetic::div_mod::lemma_small_mod((current - 1) as nat, len as nat);
    } else {
        vstd::arithmetic::div_mod::lemma_small_mod((len - 1) as nat, len as nat);
    }
}

/// Stepping forward and then back, or back and then forward, makes the same
/// match current again.
pub proof fn lemma_step_back_and_forth(current: int, len: int)
    requires
        0 <= current < len,
    ensures
        next_match(next_match(current, len, 1isize), len, -1isize) == current,
        next_match(next_match(current, len, -1isize), len, 1isize) == current,
        0 <= next_match(current, len, 1isize) < len,
        0 <= next_match(current, len, -1isize) < len,
{
    lemma_wrap(current, len);
    lemma_wrap(next_match(current, len, 1isize), len);
    lemma_wrap(next_match(current, len, -1isize), len);
}

} // verus!
