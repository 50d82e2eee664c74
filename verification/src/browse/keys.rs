//! The viewer's panes, its selection in each, and what a key press does to
//! them.

use vstd::prelude::*;

verus! {

/// The three list panes of the viewer.
#[derive(Clone, Copy, Debug, PartialEq, Eq, Structural)]
pub enum Pane {
    Slices,
    Slots,
    Diagnostics,
}

/// A key the viewer reacts to; every other key is `Other`.
#[derive(Clone, Copy, Debug, PartialEq, Eq, Structural)]
pub enum Key {
    Char(char),
    Esc,
    Tab,
    BackTab,
    Up,
    Down,
    Home,
    End,
    Other,
}

/// A key press: the key, and whether Control was held.
#[derive(Clone, Copy, Debug, PartialEq, Eq, Structural)]
pub struct KeyPress {
    pub key: Key,
    pub ctrl: bool,
}

/// The focused pane and the selected row of each pane.
#[derive(Clone, Copy, Debug, PartialEq, Eq, Structural)]
pub struct Selection {
    pub focused: Pane,
    pub slices: Option<usize>,
    pub slots: Option<usize>,
    pub diagnostics: Option<usize>,
}

/// What the viewer does after a key press.
#[derive(Clone, Copy, Debug, PartialEq, Eq, Structural)]
pub enum Action {
    /// Keep going.
    Continue,
    /// Leave the viewer.
    Quit,
    /// Load the working set again from disk.
    Reload,
    /// Make the `n`th discovered file the active root and load it.
    SwitchRoot(usize),
}

/// The number of rows of each pane.
#[derive(Clone, Copy, Debug, PartialEq, Eq, Structural)]
pub struct PaneLens {
    pub slices: usize,
    pub slots: usize,
    pub diagnostics: usize,
}

/// The pane after `p` in the cycle Slices, Slots, Diagnostics.
pub open spec fn next_pane(p: Pane) -> Pane {
    match p {
        Pane::Slices => Pane::Slots,
        Pane::Slots => Pane::Diagnostics,
        Pane::Diagnostics => Pane::Slices,
    }
}

/// The pane before `p` in the cycle.
pub open spec fn prev_pane(p: Pane) -> Pane {
    match p {
        Pane::Slices => Pane::Diagnostics,
        Pane::Slots => Pane::Slices,
        Pane::Diagnostics => Pane::Slots,
    }
}

pub open spec fn pane_len(p: Pane, lens: PaneLens) -> nat {
    match p {
        Pane::Slices => lens.slices as nat,
        Pane::Slots => lens.slots as nat,
        Pane::Diagnostics => lens.diagnostics as nat,
    }
}

pub open spec fn pane_selected(s: Selection) -> Option<usize> {
    match s.focused {
        Pane::Slices => s.slices,
        Pane::Slots => s.slots,
        Pane::Diagnostics => s.diagnostics,
    }
}

/// `s` with row `idx` selected in the focused pane, and what follows: a
/// new row in the slices pane switches the active root.
pub open spec fn select_in_focus(s: Selection, idx: usize) -> (Selection, Action) {
    match s.focused {
        Pane::Slices => (Selection { slices: Some(idx), ..s }, Action::SwitchRoot(idx)),
        Pane::Slots => (Selection { slots: Some(idx), ..s }, Action::Continue),
        Pane::Diagnostics => (Selection { diagnostics: Some(idx), ..s }, Action::Continue),
    }
}

/// Moving `delta` rows in the focused pane: to the first row when none is
/// selected, else by `delta`, kept within the pane. Nothing happens in an
/// empty pane.
pub open spec fn spec_move_by(s: Selection, delta: int, lens: PaneLens) -> (Selection, Action) {
    let len = pane_len(s.focused, lens);
    if len == 0 {
        (s, Action::Continue)
    } else {
        let next: int = match pane_selected(s) {
            None => 0,
            Some(c) => {
                let t = c + delta;
                if t < 0 {
                    0
                } else if t > len - 1 {
                    len - 1
                } else {
                    t
                }
            },
        };
        select_in_focus(s, next as usize)
    }
}

/// Jumping to the first row, or (`to_last`) to the last one.
pub open spec fn spec_move_to(s: Selection, to_last: bool, lens: PaneLens) -> (Selection, Action) {
    let len = pane_len(s.focused, lens);
    if len == 0 {
        (s, Action::Continue)
    } else {
        select_in_focus(s, if to_last { (len - 1) as usize } else { 0 })
    }
}

/// What a key press does: Ctrl-C, `q` and Esc quit; `1`, `2`, `3` focus a
/// pane, Tab and Shift-Tab cycle the focus; `r` reloads; `j`/Down and
/// `k`/Up move one row, `g`/Home and `G`/End jump to the first and last
/// row; any other key does nothing.
pub open spec fn spec_handle_key(s: Selection, k: KeyPress, lens: PaneLens) -> (Selection, Action) {
    if k.ctrl && k.key == Key::Char('c') {
        (s, Action::Quit)
    } else {
        match k.key {
            Key::Char(c) => {
                if c == 'q' {
                    (s, Action::Quit)
                } else if c == '1' {
                    (Selection { focused: Pane::Slices, ..s }, Action::Continue)
                } else if c == '2' {
                    (Selection { focused: Pane::Slots, ..s }, Action::Continue)
                } else if c == '3' {
                    (Selection { focused: Pane::Diagnostics, ..s }, Action::Continue)
                } else if c == 'r' {
                    (s, Action::Reload)
                } else if c == 'j' {
                    spec_move_by(s, 1, lens)
                } else if c == 'k' {
                    spec_move_by(s, -1, lens)
                } else if c == 'g' {
                    spec_move_to(s, false, lens)
                } else if c == 'G' {
                    spec_move_to(s, true, lens)
                } else {
                    (s, Action::Continue)
                }
            },
            Key::Esc => (s, Action::Quit),
            Key::Tab => (Selection { focused: next_pane(s.focused), ..s }, Action::Continue),
            Key::BackTab => (Selection { focused: prev_pane(s.focused), ..s }, Action::Continue),
            Key::Down => spec_move_by(s, 1, lens),
            Key::Up => spec_move_by(s, -1, lens),
            Key::Home => spec_move_to(s, false, lens),
            Key::End => spec_move_to(s, true, lens),
            Key::Other => (s, Action::Continue),
        }
    }
}

fn select_focused(s: &mut Selection, idx: usize) -> (a: Action)
    ensures
        (*final(s), a) == select_in_focus(*old(s), idx),
{
    match s.focused {
        Pane::Slices => {
            s.slices = Some(idx);
            Action::SwitchRoot(idx)
        },
        Pane::Slots => {
            s.slots = Some(idx);
            Action::Continue
        },
        Pane::Diagnostics => {
            s.diagnostics = Some(idx);
            Action::Continue
        },
    }
}

fn focused_len(s: &Selection, lens: PaneLens) -> (n: usize)
    ensures
        n == pane_len(s.focused, lens),
{
    match s.focused {
        Pane::Slices => lens.slices,
        Pane::Slots => lens.slots,
        Pane::Diagnostics => lens.diagnostics,
    }
}

fn move_by(s: &mut Selection, up: bool, lens: PaneLens) -> (a: Action)
    ensures
        (*final(s), a) == spec_move_by(*old(s), if up { -1 } else { 1 }, lens),
{
    let len = focused_len(s, lens);
    if len == 0 {
        return Action::Continue;
    }
    let cur = match s.focused {
        Pane::Slices => s.slices,
        Pane::Slots => s.slots,
        Pane::Diagnostics => s.diagnostics,
    };
    let next: usize = match cur {
        None => 0,
        Some(c) => {
            if up {
                if c == 0 {
                    0
                } else if c - 1 > len - 1 {
                    len - 1
                } else {
                    c - 1
                }
            } else {
                if c >= len - 1 {
                    len - 1
                } else {
                    c + 1
                }
            }
        },
    };
    select_focused(s, next)
}

fn move_to(s: &mut Selection, to_last: bool, lens: PaneLens) -> (a: Action)
    ensures
        (*final(s), a) == spec_move_to(*old(s), to_last, lens),
{
    let len = focused_len(s, lens);
    if len == 0 {
        return Action::Continue;
    }
    let idx = if to_last {
        len - 1
    } else {
        0
    };
    select_focused(s, idx)
}

/// Applies a key press to the selection and says what follows.
pub fn handle_key(s: &mut Selection, k: KeyPress, lens: PaneLens) -> (a: Action)
    ensures
        (*final(s), a) == spec_handle_key(*old(s), k, lens),
{
    if k.ctrl && k.key == Key::Char('c') {
        return Action::Quit;
    }
    match k.key {
        Key::Char(c) => {
            if c == 'q' {
                Action::Quit
            } else if c == '1' {
                s.focused = Pane::Slices;
                Action::Continue
            } else if c == '2' {
                s.focused = Pane::Slots;
                Action::Continue
            } else if c == '3' {
                s.focused = Pane::Diagnostics;
                Action::Continue
            } else if c == 'r' {
                Action::Reload
            } else if c == 'j' {
                move_by(s, false, lens)
            } else if c == 'k' {
                move_by(s, true, lens)
            } else if c == 'g' {
                move_to(s, false, lens)
            } else if c == 'G' {
                move_to(s, true, lens)
            } else {
                Action::Continue
            }
        },
        Key::Esc => Action::Quit,
        Key::Tab => {
            s.focused = match s.focused {
                Pane::Slices => Pane::Slots,
                Pane::Slots => Pane::Diagnostics,
                Pane::Diagnostics => Pane::Slices,
            };
            Action::Continue
        },
        Key::BackTab => {
            s.focused = match s.focused {
                Pane::Slices => Pane::Diagnostics,
                Pane::Slots => Pane::Slices,
                Pane::Diagnostics => Pane::Slots,
            };
            Action::Continue
        },
        Key::Down => move_by(s, false, lens),
        Key::Up => move_by(s, true, lens),
        Key::Home => move_to(s, false, lens),
        Key::End => move_to(s, true, lens),
        Key::Other => Action::Continue,
    }
}

/// After the working set is (re)loaded, the first slot row and the first
/// diagnostic row are selected, or none in an empty pane.
pub open spec fn spec_after_reload(s: Selection, slots: usize, diagnostics: usize) -> Selection {
    Selection {
        slots: if slots > 0 { Some(0) } else { None },
        diagnostics: if diagnostics > 0 { Some(0) } else { None },
        ..s
    }
}

pub fn after_reload(s: &mut Selection, slots: usize, diagnostics: usize)
    ensures
        *final(s) == spec_after_reload(*old(s), slots, diagnostics),
{
    s.slots = if slots > 0 {
        Some(0)
    } else {
        None
    };
    s.diagnostics = if diagnostics > 0 {
        Some(0)
    } else {
        None
    };
}

/// Moving the focus forward three times comes back to the same pane.
pub proof fn lemma_tab_cycles(p: Pane)
    ensures
        next_pane(next_pane(next_pane(p))) == p,
        prev_pane(next_pane(p)) == p,
{
}

/// A move keeps the selection of the focused pane within the pane, and
/// leaves the other panes' selections as they were.
pub proof fn lemma_move_stays_in_pane(s: Selection, delta: int, lens: PaneLens)
    ensures
        ({
            let (t, _) = spec_move_by(s, delta, lens);
            &&& t.focused == s.focused
            &&& pane_len(s.focused, lens) > 0 ==> (pane_selected(t) matches Some(i) && i < pane_len(s.focused, lens))
            &&& s.focused != Pane::Slices ==> t.slices == s.slices
            &&& s.focused != Pane::Slots ==> t.slots == s.slots
            &&& s.focused != Pane::Diagnostics ==> t.diagnostics == s.diagnostics
        }),
{
}

} // verus!
