//! The interactive staging session: the entry list, the selection cursor,
//! and the reactions to key input. The surrounding binary renders the
//! state and runs the commands this module decides on.

use vstd::prelude::*;
use crate::git::{Entry, EntryV, Git, LineStats, entries_view, is_status_list};
use crate::text::dec_str;
use crate::text::u64_to_dec;

verus! {

/// The screens of the interactive interface.
pub enum CurrentScreen {
    /// The staging screen: a scrollable list of changed files.
    Add,
}

/// A one-step move of the selection cursor.
pub enum Direction {
    Up,
    Down,
}

/// The single-path repository mutation a toggle asks for.
pub enum StageOp {
    /// Stage this path.
    Stage(String),
    /// Unstage this path, restoring it from the index.
    Unstage(String),
}

/// A key event, as the session understands it.
pub enum KeyInput {
    Up,
    Down,
    Enter,
    Quit,
    /// A key-release report; ignored, so terminals that report both press
    /// and release do not double-fire.
    Release,
    Other,
}

/// What the interactive loop should do after a key was handled.
pub enum UiReaction {
    /// Leave the interactive screen.
    Exit,
    /// Run this mutation, then refresh the session from a fresh status.
    Mutate(StageOp),
    /// Nothing beyond re-rendering.
    Nothing,
}

/// Where the cursor lands after a one-step move: one up or down, clamped
/// to the list; a move on an empty list selects nothing new.
pub open spec fn moved_selection(len: int, sel: int, dir: Direction) -> int {
    match dir {
        Direction::Up => if len == 0 {
            0
        } else if sel > 0 {
            sel - 1
        } else {
            0
        },
        Direction::Down => if sel + 1 < len {
            sel + 1
        } else {
            sel
        },
    }
}

/// Where the cursor lands after the list was rebuilt: unchanged while
/// still in bounds, the new last entry when the list shrank under it.
pub open spec fn clamped_selection(new_len: int, sel: int) -> int {
    if new_len > 0 && sel >= new_len {
        new_len - 1
    } else {
        sel
    }
}

/// A one-step move keeps the cursor strictly inside a non-empty list.
pub proof fn lemma_move_selection_in_bounds(len: int, sel: int, dir: Direction)
    requires
        len > 0,
        0 <= sel < len,
    ensures
        0 <= moved_selection(len, sel, dir) < len,
{
}

/// Rebuilding keeps the cursor strictly inside a non-empty list.
pub proof fn lemma_clamp_in_bounds(new_len: int, sel: int)
    requires
        new_len > 0,
        0 <= sel,
    ensures
        0 <= clamped_selection(new_len, sel) < new_len,
{
}

/// A move up at the first entry and a move down at the last entry are
/// no-ops.
pub proof fn lemma_move_selection_noop_at_ends(len: int, sel: int)
    requires
        len > 0,
        0 <= sel < len,
    ensures
        sel == 0 ==> moved_selection(len, sel, Direction::Up) == sel,
        sel == len - 1 ==> moved_selection(len, sel, Direction::Down) == sel,
{
}

/// The interactive session: the repository handle, the current screen,
/// the entry list and the selection cursor. The session owns all of it;
/// the surrounding loop only reads.
pub struct App {
    git: Git,
    screen: CurrentScreen,
    entries: Vec<Entry>,
    selected: usize,
}

impl App {
    /// The entry list, as mathematical values.
    pub closed spec fn entries_v(&self) -> Seq<EntryV> {
        entries_view(self.entries@)
    }

    /// The selection cursor.
    pub closed spec fn sel(&self) -> int {
        self.selected as int
    }

    pub closed spec fn screen_v(&self) -> CurrentScreen {
        self.screen
    }

    pub closed spec fn git_v(&self) -> Git {
        self.git
    }

    /// The repository handle the session works on.
    pub fn git(&self) -> (r: &Git)
        ensures
            r == self.git_v(),
    {
        &self.git
    }

    /// The session invariant: on a non-empty list the cursor points at an
    /// entry; an empty list has no selection.
    pub open spec fn wf(&self) -> bool {
        self.entries_v().len() > 0 ==> 0 <= self.sel() < self.entries_v().len()
    }

    /// Opens a session on a repository, parsing the given status stream
    /// into the initial entry list.
    pub fn new(git: Git, screen: CurrentScreen, status_out: &str) -> (app: App)
        ensures
            app.wf(),
            is_status_list(app.entries_v(), status_out@),
            app.sel() == 0,
            app.screen_v() == screen,
    {
        let entries = git.status(status_out);
        App { git, screen, entries, selected: 0 }
    }

    /// Rebuilds the entry list from a fresh status stream and clamps the
    /// cursor to the new length.
    pub fn refresh_entries(&mut self, status_out: &str)
        ensures
            final(self).wf(),
            is_status_list(final(self).entries_v(), status_out@),
            final(self).sel() == clamped_selection(
                final(self).entries_v().len() as int,
                old(self).sel(),
            ),
            final(self).screen_v() == old(self).screen_v(),
    {
        let entries = self.git.status(status_out);
        self.entries = entries;
        if self.selected >= self.entries.len() && self.entries.len() > 0 {
            self.selected = self.entries.len() - 1;
        }
    }

    /// The number of entries.
    pub fn len(&self) -> (r: usize)
        ensures
            r == self.entries_v().len(),
    {
        self.entries.len()
    }

    /// The entry at an index.
    pub fn entry(&self, i: usize) -> (r: &Entry)
        requires
            i < self.entries_v().len(),
        ensures
            r@ == self.entries_v()[i as int],
    {
        &self.entries[i]
    }

    /// The selected index to highlight, or nothing when the list is empty.
    pub fn selection(&self) -> (r: Option<usize>)
        ensures
            match r {
                Some(i) => self.entries_v().len() > 0 && i == self.sel(),
                None => self.entries_v().len() == 0,
            },
    {
        if self.entries.len() == 0 {
            None
        } else {
            Some(self.selected)
        }
    }

    /// Moves the cursor one step, clamped to the list; never touches the
    /// repository.
    pub fn move_selection(&mut self, dir: Direction)
        requires
            old(self).wf(),
        ensures
            final(self).wf(),
            final(self).entries_v() == old(self).entries_v(),
            final(self).screen_v() == old(self).screen_v(),
            final(self).sel() == moved_selection(
                old(self).entries_v().len() as int,
                old(self).sel(),
                dir,
            ),
    {
        match dir {
            Direction::Up => {
                if self.selected > 0 {
                    self.selected = self.selected - 1;
                }
                if self.selected >= self.entries.len() {
                    self.selected = if self.entries.len() == 0 {
                        0
                    } else {
                        self.entries.len() - 1
                    };
                }
            },
            Direction::Down => {
                if self.entries.len() > 0 && self.selected < self.entries.len() - 1 {
                    self.selected = self.selected + 1;
                }
            },
        }
    }

    /// What toggling the selected entry means: unstage it when it is
    /// staged, stage it when it is not; nothing on an empty list.
    pub fn toggle_selected(&self) -> (r: Option<StageOp>)
        requires
            self.wf(),
        ensures
            match r {
                None => self.entries_v().len() == 0,
                Some(op) => self.entries_v().len() > 0 && (match op {
                    StageOp::Unstage(p) => self.entries_v()[self.sel()].staged && p@
                        == self.entries_v()[self.sel()].path,
                    StageOp::Stage(p) => !self.entries_v()[self.sel()].staged && p@
                        == self.entries_v()[self.sel()].path,
                }),
            },
    {
        if self.entries.len() == 0 {
            return None;
        }
        let e = &self.entries[self.selected];
        if e.staged {
            Some(StageOp::Unstage(e.path.clone()))
        } else {
            Some(StageOp::Stage(e.path.clone()))
        }
    }

    /// Reacts to one key event: the arrow keys move the cursor, enter asks
    /// for a toggle of the selected entry, the quit key asks to leave, and
    /// release reports and unknown keys do nothing.
    pub fn handle_key(&mut self, key: KeyInput) -> (r: UiReaction)
        requires
            old(self).wf(),
        ensures
            final(self).wf(),
            final(self).entries_v() == old(self).entries_v(),
            final(self).screen_v() == old(self).screen_v(),
            match key {
                KeyInput::Quit => final(self).sel() == old(self).sel() && r is Exit,
                KeyInput::Up => final(self).sel() == moved_selection(
                    old(self).entries_v().len() as int,
                    old(self).sel(),
                    Direction::Up,
                ) && r is Nothing,
                KeyInput::Down => final(self).sel() == moved_selection(
                    old(self).entries_v().len() as int,
                    old(self).sel(),
                    Direction::Down,
                ) && r is Nothing,
                KeyInput::Enter => final(self).sel() == old(self).sel() && (match r {
                    UiReaction::Mutate(op) => old(self).entries_v().len() > 0 && (match op {
                        StageOp::Unstage(p) => old(self).entries_v()[old(self).sel()].staged && p@
                            == old(self).entries_v()[old(self).sel()].path,
                        StageOp::Stage(p) => !old(self).entries_v()[old(self).sel()].staged && p@
                            == old(self).entries_v()[old(self).sel()].path,
                    }),
                    UiReaction::Nothing => old(self).entries_v().len() == 0,
                    UiReaction::Exit => false,
                }),
                KeyInput::Release => final(self).sel() == old(self).sel() && r is Nothing,
                KeyInput::Other => final(self).sel() == old(self).sel() && r is Nothing,
            },
    {
        match key {
            KeyInput::Release => UiReaction::Nothing,
            KeyInput::Quit => UiReaction::Exit,
            KeyInput::Up => {
                self.move_selection(Direction::Up);
                UiReaction::Nothing
            },
            KeyInput::Down => {
                self.move_selection(Direction::Down);
                UiReaction::Nothing
            },
            KeyInput::Enter => {
                match self.toggle_selected() {
                    Some(op) => UiReaction::Mutate(op),
                    None => UiReaction::Nothing,
                }
            },
            KeyInput::Other => UiReaction::Nothing,
        }
    }
}

/// The text of one rendered row: the added and removed counts looked up
/// by path in the mapping matching the entry's staged flag, then the path.
pub open spec fn label_view(added: u64, removed: u64, path: Seq<char>) -> Seq<char> {
    "+"@ + dec_str(added as int) + " -"@ + dec_str(removed as int) + "  "@ + path
}

/// Renders one row of the list: `+<added> -<removed>  <path>`, with the
/// counts taken from the staged or unstaged mapping per the entry's flag,
/// and zero both ways for a path the mapping does not know.
pub fn row_label(e: &Entry, staged_stats: &LineStats, unstaged_stats: &LineStats) -> (r: String)
    ensures
        ({
            let m = if e.staged {
                staged_stats@
            } else {
                unstaged_stats@
            };
            let c = if m.contains_key(e.path@) {
                m[e.path@]
            } else {
                (0u64, 0u64)
            };
            r@ == label_view(c.0, c.1, e.path@)
        }),
{
    let counts = if e.staged {
        staged_stats.get(&e.path)
    } else {
        unstaged_stats.get(&e.path)
    };
    let mut s: String = "+".to_owned();
    let a = u64_to_dec(counts.0);
    s.append(a.as_str());
    s.append(" -");
    let d = u64_to_dec(counts.1);
    s.append(d.as_str());
    s.append("  ");
    s.append(e.path.as_str());
    s
}

} // verus!
