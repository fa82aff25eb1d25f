//! The modal interaction controller: an explicit finite-state machine from
//! key input to filter commits, tab switches and termination.
//!
//! Normal mode: `q`/`Esc` end the session, `1`/`2` pick the tab, `/`, `s`,
//! `e` open a filter-entry mode with a cleared buffer, Ctrl-`c` asks to
//! confirm clearing. In an entry mode: `Esc` cancels, `Enter` commits the
//! trimmed buffer (a non-empty buffer sets the filter, an empty one clears
//! it; confirmed clearing resets all three) and asks for a re-layout,
//! `Backspace` edits, any printable character extends the buffer.

use vstd::prelude::*;
use vstd::string::StrSliceExecFns;
use vstd::string::StringExecFns;

use crate::filter::Filters;
use crate::text::trim;
use crate::text::trim_spec;

verus! {

/// The five modes of the session.
#[derive(Clone, Copy, Debug, PartialEq, Eq, Structural)]
pub enum InputMode {
    Normal,
    FilterPod,
    FilterService,
    FilterExternal,
    ClearConfirm,
}

/// A key press, reduced to what the controller reads.
#[derive(Clone, Copy, Debug, PartialEq, Eq, Structural)]
pub enum Key {
    Esc,
    Enter,
    Backspace,
    Char(char),
    Other,
}

/// One key press with its control-modifier flag.
#[derive(Clone, Copy, Debug, PartialEq, Eq, Structural)]
pub struct KeyInput {
    pub key: Key,
    pub ctrl: bool,
}

/// What the caller must do after a key: keep going, recompute the filtered
/// layout, or end the session.
#[derive(Clone, Copy, Debug, PartialEq, Eq, Structural)]
pub enum KeyOutcome {
    Continue,
    Refilter,
    Quit,
}

/// The interactive session's state: mode, text buffer, filters and tab.
#[derive(Clone, Debug)]
pub struct Session {
    pub mode: InputMode,
    pub buffer: String,
    pub filters: Filters,
    pub tab: usize,
}

/// The mathematical shadow of a session.
pub struct SessionModel {
    pub mode: InputMode,
    pub buffer: Seq<char>,
    pub pod: Option<Seq<char>>,
    pub service: Option<Seq<char>>,
    pub external: Option<Seq<char>>,
    pub tab: int,
}

pub open spec fn opt_view(o: Option<String>) -> Option<Seq<char>> {
    match o {
        Some(s) => Some(s@),
        None => None,
    }
}

impl Session {
    pub open spec fn model(self) -> SessionModel {
        SessionModel {
            mode: self.mode,
            buffer: self.buffer@,
            pod: opt_view(self.filters.pod),
            service: opt_view(self.filters.service),
            external: opt_view(self.filters.external),
            tab: self.tab as int,
        }
    }

    /// A fresh session: Normal mode, empty buffer, no filters, first tab.
    pub fn new() -> (s: Session)
        ensures
            s.model() == (SessionModel {
                mode: InputMode::Normal,
                buffer: Seq::empty(),
                pod: None,
                service: None,
                external: None,
                tab: 0,
            }),
    {
        let s = Session {
            mode: InputMode::Normal,
            buffer: String::new(),
            filters: Filters::none(),
            tab: 0,
        };
        proof {
            assert(s.buffer@ =~= Seq::<char>::empty());
        }
        s
    }
}

/// Committing the buffer: the entry mode's filter takes the trimmed buffer
/// when it is non-empty and is cleared otherwise; a confirmed clear resets
/// all three filters; filters rest untouched in any other mode.
pub open spec fn commit_spec(s: SessionModel) -> SessionModel {
    let t = trim_spec(s.buffer);
    let v = if t.len() == 0 {
        None
    } else {
        Some(t)
    };
    match s.mode {
        InputMode::FilterPod => SessionModel { pod: v, ..s },
        InputMode::FilterService => SessionModel { service: v, ..s },
        InputMode::FilterExternal => SessionModel { external: v, ..s },
        InputMode::ClearConfirm => SessionModel { pod: None, service: None, external: None, ..s },
        InputMode::Normal => s,
    }
}

/// The transition function of the state machine.
pub open spec fn step_spec(s: SessionModel, k: KeyInput) -> SessionModel {
    match s.mode {
        InputMode::Normal => {
            if k.key == Key::Char('1') {
                SessionModel { tab: 0, ..s }
            } else if k.key == Key::Char('2') {
                SessionModel { tab: 1, ..s }
            } else if k.key == Key::Char('/') {
                SessionModel { mode: InputMode::FilterPod, buffer: Seq::empty(), ..s }
            } else if k.key == Key::Char('s') {
                SessionModel { mode: InputMode::FilterService, buffer: Seq::empty(), ..s }
            } else if k.key == Key::Char('e') {
                SessionModel { mode: InputMode::FilterExternal, buffer: Seq::empty(), ..s }
            } else if k.key == Key::Char('c') && k.ctrl {
                SessionModel { mode: InputMode::ClearConfirm, ..s }
            } else {
                s
            }
        },
        _ => {
            match k.key {
                Key::Esc => SessionModel { mode: InputMode::Normal, buffer: Seq::empty(), ..s },
                Key::Enter => {
                    let c = commit_spec(s);
                    SessionModel { mode: InputMode::Normal, buffer: Seq::empty(), ..c }
                },
                Key::Backspace => SessionModel {
                    buffer: if s.buffer.len() > 0 {
                        s.buffer.drop_last()
                    } else {
                        s.buffer
                    },
                    ..s
                },
                Key::Char(c) => SessionModel { buffer: s.buffer.push(c), ..s },
                Key::Other => s,
            }
        },
    }
}

/// What the caller is told: quit only from Normal mode on `q` or `Esc`;
/// a re-layout exactly after a commit; otherwise keep going.
pub open spec fn outcome_spec(s: SessionModel, k: KeyInput) -> KeyOutcome {
    match s.mode {
        InputMode::Normal => {
            if k.key == Key::Esc || k.key == Key::Char('q') {
                KeyOutcome::Quit
            } else {
                KeyOutcome::Continue
            }
        },
        _ => {
            if k.key == Key::Enter {
                KeyOutcome::Refilter
            } else {
                KeyOutcome::Continue
            }
        },
    }
}

/// A non-empty string as a set filter; an empty one clears it.
pub fn non_empty(s: &str) -> (r: Option<String>)
    ensures
        (r is Some) == (s@.len() != 0),
        r matches Some(t) ==> t@ == s@,
{
    if s.unicode_len() == 0 {
        None
    } else {
        Some(s.to_owned())
    }
}

impl Session {
    /// Feeds one key press to the state machine. The new session state and
    /// the outcome are exactly `step_spec` and `outcome_spec` of the old.
    pub fn handle_key(&mut self, k: KeyInput) -> (out: KeyOutcome)
        ensures
            final(self).model() == step_spec(old(self).model(), k),
            out == outcome_spec(old(self).model(), k),
    {
        match self.mode {
            InputMode::Normal => {
                match k.key {
                    Key::Esc => KeyOutcome::Quit,
                    Key::Char(c) => {
                        if c == 'q' {
                            KeyOutcome::Quit
                        } else {
                            if c == '1' {
                                self.tab = 0;
                            } else if c == '2' {
                                self.tab = 1;
                            } else if c == '/' {
                                self.mode = InputMode::FilterPod;
                                self.buffer = String::new();
                            } else if c == 's' {
                                self.mode = InputMode::FilterService;
                                self.buffer = String::new();
                            } else if c == 'e' {
                                self.mode = InputMode::FilterExternal;
                                self.buffer = String::new();
                            } else if c == 'c' && k.ctrl {
                                self.mode = InputMode::ClearConfirm;
                            }
                            proof {
                                assert(self.model() == step_spec(old(self).model(), k));
                            }
                            KeyOutcome::Continue
                        }
                    },
                    _ => KeyOutcome::Continue,
                }
            },
            _ => {
                match k.key {
                    Key::Esc => {
                        self.mode = InputMode::Normal;
                        self.buffer = String::new();
                        KeyOutcome::Continue
                    },
                    Key::Enter => {
                        let t = trim(self.buffer.as_str());
                        match self.mode {
                            InputMode::FilterPod => {
                                self.filters.pod = non_empty(t.as_str());
                            },
                            InputMode::FilterService => {
                                self.filters.service = non_empty(t.as_str());
                            },
                            InputMode::FilterExternal => {
                                self.filters.external = non_empty(t.as_str());
                            },
                            InputMode::ClearConfirm => {
                                self.filters = Filters::none();
                            },
                            InputMode::Normal => {},
                        }
                        self.mode = InputMode::Normal;
                        self.buffer = String::new();
                        KeyOutcome::Refilter
                    },
                    Key::Backspace => {
                        let n = self.buffer.unicode_len();
                        if n > 0 {
                            let shorter = self.buffer.as_str().substring_char(0, n - 1).to_owned();
                            proof {
                                assert(shorter@ =~= old(self).buffer@.drop_last());
                            }
                            self.buffer = shorter;
                        }
                        KeyOutcome::Continue
                    },
                    Key::Char(c) => {
                        self.buffer.push(c);
                        KeyOutcome::Continue
                    },
                    Key::Other => KeyOutcome::Continue,
                }
            },
        }
    }
}

} // verus!
