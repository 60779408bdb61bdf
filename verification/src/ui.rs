//! The list browser's state machine: selection movement with wrap-around,
//! the clear-confirmation dialog, and the key dispatch. Rendering and
//! terminal events live outside; they hand keys in as plain values.

use vstd::prelude::*;

verus! {

/// A key press, reduced to what the browser reacts to.
#[derive(Clone, Copy, PartialEq, Eq, Structural, Debug)]
pub enum UiKey {
    Down,
    Up,
    Enter,
    Esc,
    Char(char),
    Other,
}

/// What a key press asks the surrounding loop to do to the store.
#[derive(Clone, Copy, PartialEq, Eq, Structural, Debug)]
pub enum UiEffect {
    Nothing,
    ClearHistory,
}

/// The browser's state: the highlighted row, the chosen row if any, whether
/// the session should end, and whether the clear-confirmation dialog is up.
pub struct AppState {
    pub selected: Option<usize>,
    pub should_quit: bool,
    pub selected_index: Option<usize>,
    pub show_clear_confirm: bool,
}

/// The row highlighted after a downward step through `max` rows.
pub open spec fn next_row(sel: Option<usize>, max: int) -> Option<usize> {
    match sel {
        Some(i) => if i >= max - 1 {
            Some(0usize)
        } else {
            Some((i + 1) as usize)
        },
        None => Some(0usize),
    }
}

/// The row highlighted after an upward step through `max` rows.
pub open spec fn previous_row(sel: Option<usize>, max: int) -> Option<usize> {
    match sel {
        Some(i) => if i == 0 {
            Some((max - 1) as usize)
        } else {
            Some((i - 1) as usize)
        },
        None => Some(0usize),
    }
}

impl AppState {
    /// A fresh browser with the first row highlighted.
    pub fn new() -> (r: Self)
        ensures
            r.selected == Some(0usize),
            !r.should_quit,
            r.selected_index is None,
            !r.show_clear_confirm,
    {
        AppState {
            selected: Some(0),
            should_quit: false,
            selected_index: None,
            show_clear_confirm: false,
        }
    }

    /// Moves the highlight one row down, wrapping at the end; with no rows,
    /// nothing moves.
    pub fn next(&mut self, max: usize)
        ensures
            max == 0 ==> *final(self) == *old(self),
            max > 0 ==> *final(self) == (AppState {
                selected: next_row(old(self).selected, max as int),
                ..*old(self)
            }),
    {
        if max == 0 {
            return ;
        }
        let i = match self.selected {
            Some(i) => if i >= max - 1 {
                0
            } else {
                i + 1
            },
            None => 0,
        };
        self.selected = Some(i);
    }

    /// Moves the highlight one row up, wrapping at the start; with no rows,
    /// nothing moves.
    pub fn previous(&mut self, max: usize)
        ensures
            max == 0 ==> *final(self) == *old(self),
            max > 0 ==> *final(self) == (AppState {
                selected: previous_row(old(self).selected, max as int),
                ..*old(self)
            }),
    {
        if max == 0 {
            return ;
        }
        let i = match self.selected {
            Some(i) => if i == 0 {
                max - 1
            } else {
                i - 1
            },
            None => 0,
        };
        self.selected = Some(i);
    }

    /// Chooses the highlighted row and ends the session.
    pub fn select(&mut self)
        ensures
            *final(self) == (AppState {
                selected_index: old(self).selected,
                should_quit: true,
                ..*old(self)
            }),
    {
        self.selected_index = self.selected;
        self.should_quit = true;
    }

    /// Ends the session without choosing.
    pub fn quit(&mut self)
        ensures
            *final(self) == (AppState { should_quit: true, ..*old(self) }),
    {
        self.should_quit = true;
    }

    /// Dispatches one key press against the current state, as the browser
    /// loop does: the dialog swallows keys while it is up; otherwise keys
    /// navigate, choose, quit, or open the dialog.
    pub fn handle_key(&mut self, key: UiKey, entries_len: usize) -> (eff: UiEffect)
        ensures
            ({
                if old(self).show_clear_confirm {
                    &&& (key == UiKey::Char('y') || key == UiKey::Char('Y')) ==> eff
                        == UiEffect::ClearHistory && *final(self) == (AppState {
                        show_clear_confirm: false,
                        ..*old(self)
                    })
                    &&& (key == UiKey::Char('n') || key == UiKey::Char('N') || key == UiKey::Esc)
                        ==> eff == UiEffect::Nothing && *final(self) == (AppState {
                        show_clear_confirm: false,
                        ..*old(self)
                    })
                    &&& !(key == UiKey::Char('y') || key == UiKey::Char('Y') || key == UiKey::Char(
                        'n',
                    ) || key == UiKey::Char('N') || key == UiKey::Esc) ==> eff == UiEffect::Nothing
                        && *final(self) == *old(self)
                } else {
                    &&& (key == UiKey::Char('q') || key == UiKey::Esc) ==> eff == UiEffect::Nothing
                        && *final(self) == (AppState { should_quit: true, ..*old(self) })
                    &&& (key == UiKey::Char('c') || key == UiKey::Char('C')) && entries_len > 0
                        ==> eff == UiEffect::Nothing && *final(self) == (AppState {
                        show_clear_confirm: true,
                        ..*old(self)
                    })
                    &&& (key == UiKey::Down || key == UiKey::Char('j')) ==> eff == UiEffect::Nothing
                        && (if entries_len == 0 {
                        *final(self) == *old(self)
                    } else {
                        *final(self) == (AppState {
                            selected: next_row(old(self).selected, entries_len as int),
                            ..*old(self)
                        })
                    })
                    &&& (key == UiKey::Up || key == UiKey::Char('k')) ==> eff == UiEffect::Nothing
                        && (if entries_len == 0 {
                        *final(self) == *old(self)
                    } else {
                        *final(self) == (AppState {
                            selected: previous_row(old(self).selected, entries_len as int),
                            ..*old(self)
                        })
                    })
                    &&& key == UiKey::Enter && entries_len > 0 ==> eff == UiEffect::Nothing
                        && *final(self) == (AppState {
                        selected_index: old(self).selected,
                        should_quit: true,
                        ..*old(self)
                    })
                    &&& ((key == UiKey::Char('c') || key == UiKey::Char('C') || key == UiKey::Enter)
                        && entries_len == 0) || key == UiKey::Other || (key matches UiKey::Char(c)
                        && c != 'q' && c != 'c' && c != 'C' && c != 'j' && c != 'k') ==> eff
                        == UiEffect::Nothing && *final(self) == *old(self)
                }
            }),
    {
        if self.show_clear_confirm {
            match key {
                UiKey::Char(c) => {
                    if c == 'y' || c == 'Y' {
                        self.show_clear_confirm = false;
                        UiEffect::ClearHistory
                    } else if c == 'n' || c == 'N' {
                        self.show_clear_confirm = false;
                        UiEffect::Nothing
                    } else {
                        UiEffect::Nothing
                    }
                },
                UiKey::Esc => {
                    self.show_clear_confirm = false;
                    UiEffect::Nothing
                },
                _ => UiEffect::Nothing,
            }
        } else {
            match key {
                UiKey::Esc => {
                    self.quit();
                    UiEffect::Nothing
                },
                UiKey::Down => {
                    self.next(entries_len);
                    UiEffect::Nothing
                },
                UiKey::Up => {
                    self.previous(entries_len);
                    UiEffect::Nothing
                },
                UiKey::Enter => {
                    if entries_len > 0 {
                        self.select();
                    }
                    UiEffect::Nothing
                },
                UiKey::Char(c) => {
                    if c == 'q' {
                        self.quit();
                    } else if (c == 'c' || c == 'C') && entries_len > 0 {
                        self.show_clear_confirm = true;
                    } else if c == 'j' {
                        self.next(entries_len);
                    } else if c == 'k' {
                        self.previous(entries_len);
                    }
                    UiEffect::Nothing
                },
                UiKey::Other => UiEffect::Nothing,
            }
        }
    }
}

} // verus!
