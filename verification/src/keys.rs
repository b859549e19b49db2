//! What a key press does to the viewer's state, and what it asks the
//! program around the library to do.

use vstd::prelude::*;
use crate::state::{
    AppState, InfoPopup, SearchState, Mode, RowView, VisibleItem, clamped, rows_of,
    expanded_current, collapsed_or_went_to_parent, transposed_toggled,
};
use crate::text::{push_char, without_last_char};

verus! {

/// A key, as the viewer tells keys apart.
#[derive(Clone, Copy, PartialEq, Eq, Structural, Debug)]
pub enum Key {
    Up,
    Down,
    Left,
    Right,
    Enter,
    Esc,
    Backspace,
    Char(char),
    Other,
}

/// What the program has to do after a key press.
pub enum Action {
    /// Nothing.
    Stay,
    /// Leave; the exit status tells whether an update succeeded.
    Quit { update_succeeded: bool },
    /// Show `pacman -Qi` for the package, then call `open_info`.
    ShowInfo { package: String },
    /// Run the system update, then call `finish_update`.
    RunUpdate,
    /// Remove the package, rebuild the depgraph, then call `reload_packages`.
    RemovePackage { package: String },
}

/// The first row at depth 0 from `from` on that shows `name`.
pub open spec fn first_root_named(rows: Seq<RowView>, name: Seq<char>, from: int) -> Option<int>
    decreases rows.len() - from,
{
    if from < 0 || from >= rows.len() {
        None
    } else if rows[from].depth == 0 && rows[from].name == name {
        Some(from)
    } else {
        first_root_named(rows, name, from + 1)
    }
}

/// Whether the key needs a row under the cursor.
pub open spec fn key_needs_row(s: AppState, key: Key) -> bool {
    !s.show_help && s.info_popup is None && s.search is None && (key == Key::Char('i') || key
        == Key::Char('d') || key == Key::Right || key == Key::Left)
}

/// The keys that the viewer handles without failing: a key that needs the
/// row under the cursor comes with one, and scrolling down a popup stays
/// within the scroll range.
pub open spec fn key_ok(s: AppState, key: Key) -> bool {
    &&& key_needs_row(s, key) ==> s.cursor < s.visible_spec().len()
    &&& (!s.show_help && s.info_popup is Some && key == Key::Down) ==> s.info_popup->0.scroll < u16::MAX
}

/// What a key press does while the search line is open.
pub open spec fn search_step(s: AppState, key: Key, t: AppState) -> bool {
    let q = s.search->0;
    match key {
        Key::Esc => {
            let closed = AppState { search: None, cursor: q.pre_search_cursor, ..s };
            t == (AppState { cursor: clamped(q.pre_search_cursor, closed.visible_spec().len()), ..closed })
        },
        Key::Enter => {
            let rows = s.visible_spec();
            let closed = AppState { search: None, ..s };
            let full = closed.visible_spec();
            if s.cursor < rows.len() {
                match first_root_named(full, rows[s.cursor as int].name, 0) {
                    Some(p) => t.cursor == p && t == (AppState { cursor: t.cursor, ..closed }),
                    None => t == (AppState { cursor: clamped(s.cursor, full.len()), ..closed }),
                }
            } else {
                t == (AppState { cursor: clamped(s.cursor, full.len()), ..closed })
            }
        },
        Key::Up => t == (AppState {
            cursor: if s.cursor > 0 { (s.cursor - 1) as usize } else { s.cursor },
            ..s
        }),
        Key::Down => t == (AppState {
            cursor: if s.cursor + 1 < s.visible_spec().len() { (s.cursor + 1) as usize } else { s.cursor },
            ..s
        }),
        Key::Backspace => {
            &&& t.search matches Some(nq) && nq.pre_search_cursor == q.pre_search_cursor
                && nq.query@ == (if q.query@.len() > 0 { q.query@.drop_last() } else { q.query@ })
            &&& t == (AppState { search: t.search, cursor: 0, ..s })
        },
        Key::Char(c) => {
            &&& t.search matches Some(nq) && nq.pre_search_cursor == q.pre_search_cursor
                && nq.query@ == q.query@.push(c)
            &&& t == (AppState { search: t.search, cursor: 0, ..s })
        },
        _ => t == s,
    }
}

/// What a key press does while the information popup is open.
pub open spec fn popup_step(s: AppState, key: Key, t: AppState) -> bool {
    let p = s.info_popup->0;
    match key {
        Key::Up => t == (AppState {
            info_popup: Some(InfoPopup { scroll: if p.scroll > 0 { (p.scroll - 1) as u16 } else { 0 }, ..p }),
            ..s
        }),
        Key::Down => t == (AppState {
            info_popup: Some(InfoPopup { scroll: (p.scroll + 1) as u16, ..p }),
            ..s
        }),
        _ => t == (AppState { info_popup: None, ..s }),
    }
}

/// What a key press does in the tree itself.
pub open spec fn tree_step(s: AppState, key: Key, t: AppState, a: Action) -> bool {
    let rows = s.visible_spec();
    match key {
        Key::Char('q') => a == (Action::Quit { update_succeeded: s.update_succeeded }) && t == s,
        Key::Char('h') | Key::Char('?') => a is Stay && t == (AppState { show_help: true, ..s }),
        Key::Char('a') => a is Stay && t == (AppState {
            mode: match s.mode {
                Mode::Updates => Mode::AllPackages,
                Mode::AllPackages => Mode::Updates,
            },
            cursor: 0,
            ..s
        }),
        Key::Char('t') => a is Stay && transposed_toggled(s, t),
        Key::Char('g') => a is Stay && t == (AppState { show_groups: !s.show_groups, ..s }),
        Key::Char('/') => {
            &&& a is Stay
            &&& t.search matches Some(q) && q.query@ == Seq::<char>::empty() && q.pre_search_cursor == s.cursor
            &&& t == (AppState { search: t.search, cursor: 0, ..s })
        },
        Key::Char('i') => {
            &&& a matches Action::ShowInfo { package } && package@ == rows[s.cursor as int].name
            &&& t == s
        },
        Key::Char('r') => a is RunUpdate && t == s,
        Key::Char('d') => {
            &&& a matches Action::RemovePackage { package } && package@ == rows[s.cursor as int].name
            &&& t == s
        },
        Key::Up => a is Stay && t == (AppState {
            cursor: if s.cursor > 0 { (s.cursor - 1) as usize } else { s.cursor },
            ..s
        }),
        Key::Down => a is Stay && t == (AppState {
            cursor: if s.cursor + 1 < rows.len() { (s.cursor + 1) as usize } else { s.cursor },
            ..s
        }),
        Key::Right => a is Stay && expanded_current(s, t),
        Key::Left => a is Stay && collapsed_or_went_to_parent(s, t),
        _ => a is Stay && t == s,
    }
}

/// What a key press does: the help popup takes any key to close; the
/// information popup scrolls or closes; the search line edits its query,
/// moves the cursor, confirms or cancels; otherwise the key acts on the tree.
pub open spec fn key_step(s: AppState, key: Key, t: AppState, a: Action) -> bool {
    if s.show_help {
        a is Stay && t == (AppState { show_help: false, ..s })
    } else if s.info_popup is Some {
        a is Stay && popup_step(s, key, t)
    } else if s.search is Some {
        a is Stay && search_step(s, key, t)
    } else {
        tree_step(s, key, t, a)
    }
}

/// The first row at depth 0 that shows `name`.
fn find_root_row(rows: &Vec<VisibleItem>, name: &String) -> (r: Option<usize>)
    ensures
        match r {
            Some(p) => first_root_named(rows_of(rows@), name@, 0) == Some(p as int),
            None => first_root_named(rows_of(rows@), name@, 0) is None,
        },
{
    let ghost rs = rows_of(rows@);
    let n = rows.len();
    let mut i: usize = 0;
    while i < n
        invariant
            n == rows@.len(),
            rs == rows_of(rows@),
            i <= n,
            first_root_named(rs, name@, 0) == first_root_named(rs, name@, i as int),
        decreases n - i,
    {
        assert(rows@[i as int]@ == rs[i as int]);
        if rows[i].depth == 0 && rows[i].name == *name {
            return Some(i);
        }
        i = i + 1;
    }
    None
}

impl AppState {
    /// Handles one key press; the result says what the program has to do.
    pub fn handle_key(&mut self, key: Key) -> (a: Action)
        requires
            key_ok(*old(self), key),
        ensures
            key_step(*old(self), key, *final(self), a),
    {
        if self.show_help {
            self.show_help = false;
            return Action::Stay;
        }
        if self.info_popup.is_some() {
            match key {
                Key::Up => {
                    match &mut self.info_popup {
                        Some(p) => {
                            p.scroll = if p.scroll > 0 {
                                p.scroll - 1
                            } else {
                                0
                            };
                        },
                        None => {},
                    }
                },
                Key::Down => {
                    match &mut self.info_popup {
                        Some(p) => {
                            p.scroll = p.scroll + 1;
                        },
                        None => {},
                    }
                },
                _ => {
                    self.info_popup = None;
                },
            }
            return Action::Stay;
        }
        if self.search.is_some() {
            match key {
                Key::Esc => {
                    let pre = match &self.search {
                        Some(s) => s.pre_search_cursor,
                        None => 0,
                    };
                    self.search = None;
                    self.cursor = pre;
                    self.clamp_cursor();
                },
                Key::Enter => {
                    let vis = self.visible();
                    let selected = if self.cursor < vis.len() {
                        assert(vis@[self.cursor as int]@ == rows_of(vis@)[self.cursor as int]);
                        Some(vis[self.cursor].name.clone())
                    } else {
                        None
                    };
                    self.search = None;
                    match selected {
                        Some(name) => {
                            let full = self.visible();
                            match find_root_row(&full, &name) {
                                Some(p) => {
                                    self.cursor = p;
                                },
                                None => {
                                    self.clamp_cursor();
                                },
                            }
                        },
                        None => {
                            self.clamp_cursor();
                        },
                    }
                },
                Key::Up => {
                    self.move_up();
                },
                Key::Down => {
                    self.move_down();
                },
                Key::Backspace => {
                    match &mut self.search {
                        Some(s) => {
                            s.query = without_last_char(&s.query);
                        },
                        None => {},
                    }
                    self.cursor = 0;
                    self.clamp_cursor();
                },
                Key::Char(c) => {
                    match &mut self.search {
                        Some(s) => {
                            push_char(&mut s.query, c);
                        },
                        None => {},
                    }
                    self.cursor = 0;
                    self.clamp_cursor();
                },
                _ => {},
            }
            return Action::Stay;
        }
        match key {
            Key::Char('q') => {
                return Action::Quit { update_succeeded: self.update_succeeded };
            },
            Key::Char('h') | Key::Char('?') => {
                self.show_help = true;
            },
            Key::Char('a') => {
                self.toggle_mode();
            },
            Key::Char('t') => {
                self.toggle_transposed();
            },
            Key::Char('g') => {
                self.show_groups = !self.show_groups;
            },
            Key::Char('/') => {
                self.search = Some(SearchState { query: String::new(), pre_search_cursor: self.cursor });
                self.cursor = 0;
            },
            Key::Char('i') => {
                let vis = self.visible();
                assert(vis@[self.cursor as int]@ == rows_of(vis@)[self.cursor as int]);
                return Action::ShowInfo { package: vis[self.cursor].name.clone() };
            },
            Key::Char('r') => {
                return Action::RunUpdate;
            },
            Key::Char('d') => {
                let vis = self.visible();
                assert(vis@[self.cursor as int]@ == rows_of(vis@)[self.cursor as int]);
                return Action::RemovePackage { package: vis[self.cursor].name.clone() };
            },
            Key::Up => {
                self.move_up();
            },
            Key::Down => {
                self.move_down();
            },
            Key::Right => {
                self.expand_current();
            },
            Key::Left => {
                self.collapse_or_go_to_parent();
            },
            _ => {},
        }
        Action::Stay
    }

    /// Opens the information popup on `content`, the `pacman -Qi` output for
    /// `package`, scrolled to the top.
    pub fn open_info(&mut self, package: String, content: String)
        ensures
            *final(self) == (AppState {
                info_popup: Some(InfoPopup { package, content, scroll: 0 }),
                ..*old(self)
            }),
    {
        self.info_popup = Some(InfoPopup { content, package, scroll: 0 });
    }

    /// Records how the system update went: once it has succeeded, it stays so.
    pub fn finish_update(&mut self, succeeded: bool)
        ensures
            *final(self) == (AppState { update_succeeded: old(self).update_succeeded || succeeded, ..*old(self) }),
    {
        if succeeded {
            self.update_succeeded = true;
        }
    }
}

} // verus!
