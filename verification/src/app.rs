//! Navigation state of the ticket browser: a stack of open lists, each with
//! its selection, and whether the selected ticket is shown in detail.
use vstd::prelude::*;

use vstd::arithmetic::div_mod::lemma_fundamental_div_mod_converse_mod;

use crate::model::Ticket;
use crate::text::{chars_of, string_of};

verus! {

/// One open list: its selection and the label shown for it.
#[derive(Debug)]
pub struct ListLevel {
    pub selected: Option<usize>,
    pub label: String,
}

/// The browser's state. `stack[0]` lists the root tickets; each further
/// level lists the children of the ticket selected one level up.
#[derive(Debug)]
pub struct App {
    pub tickets: Vec<Ticket>,
    pub stack: Vec<ListLevel>,
    pub detail: bool,
}

/// A level as plain values: selection and label.
pub type LevelView = (Option<usize>, Seq<char>);

pub struct AppView {
    pub tickets: Seq<Ticket>,
    pub levels: Seq<LevelView>,
    pub detail: bool,
}

impl View for App {
    type V = AppView;

    open spec fn view(&self) -> AppView {
        AppView {
            tickets: self.tickets@,
            levels: self.stack@.map_values(|l: ListLevel| (l.selected, l.label@)),
            detail: self.detail,
        }
    }
}

/// The tickets listed at level `k`: the root list for `k == 0`, otherwise
/// the children of the ticket selected at level `k - 1`.
pub open spec fn level_list(root: Seq<Ticket>, levels: Seq<LevelView>, k: int) -> Seq<Ticket>
    decreases k,
{
    if k <= 0 {
        root
    } else {
        let prev = level_list(root, levels, k - 1);
        prev[levels[k - 1].0.unwrap() as int].children@
    }
}

/// A selection fits its list: none for an empty list, else an index in it.
pub open spec fn selection_fits(list: Seq<Ticket>, sel: Option<usize>) -> bool {
    match sel {
        None => list.len() == 0,
        Some(i) => i < list.len(),
    }
}

/// The selection a freshly opened list gets: the first ticket, if any.
pub open spec fn first_selection(list: Seq<Ticket>) -> Option<usize> {
    if list.len() > 0 {
        Some(0)
    } else {
        None
    }
}

/// Levels are well formed: at least the root level, every selection fits
/// its list, and every level below the top has a selected ticket with
/// children (the list opened above it).
pub open spec fn levels_wf(root: Seq<Ticket>, levels: Seq<LevelView>) -> bool {
    &&& levels.len() >= 1
    &&& forall|k: int|
        0 <= k < levels.len() ==> selection_fits(level_list(root, levels, k), #[trigger] levels[k].0)
    &&& forall|k: int|
        0 <= k < levels.len() - 1 ==> {
            &&& #[trigger] levels[k].0 is Some
            &&& level_list(root, levels, k)[levels[k].0.unwrap() as int].children@.len() > 0
        }
}

/// Index of the first ticket with the given title.
pub open spec fn first_titled(list: Seq<Ticket>, title: Seq<char>) -> Option<int> {
    if exists|i: int| 0 <= i < list.len() && #[trigger] list[i].title@ == title {
        Some(
            choose|i: int|
                0 <= i < list.len() && #[trigger] list[i].title@ == title && forall|j: int|
                    0 <= j < i ==> list[j].title@ != title,
        )
    } else {
        None
    }
}

/// The selected ticket at level `k`, if the selection is in range.
pub open spec fn selected_at(root: Seq<Ticket>, levels: Seq<LevelView>, k: int) -> Option<Ticket> {
    let list = level_list(root, levels, k);
    match levels[k].0 {
        Some(i) => if i < list.len() {
            Some(list[i as int])
        } else {
            None
        },
        None => None,
    }
}

/// Titles of the selected tickets, from the root level up to level `k`.
pub open spec fn selected_titles(root: Seq<Ticket>, levels: Seq<LevelView>, k: int) -> Seq<
    Seq<char>,
>
    decreases k,
{
    if k <= 0 {
        Seq::empty()
    } else {
        selected_titles(root, levels, k - 1) + match selected_at(root, levels, k - 1) {
            Some(t) => seq![t.title@],
            None => Seq::empty(),
        }
    }
}

/// Re-selecting by title after a reload, from the `d`-th remembered title
/// on: the title is looked up in the top list (stop when absent) and
/// selected; unless it is the last title, the ticket's children are opened
/// when it has any.
pub open spec fn restore(root: Seq<Ticket>, levels: Seq<LevelView>, titles: Seq<Seq<char>>, d: int) -> Seq<
    LevelView,
>
    decreases titles.len() - d,
{
    if d < 0 || d >= titles.len() {
        levels
    } else {
        let k = levels.len() - 1;
        let list = level_list(root, levels, k);
        match first_titled(list, titles[d]) {
            None => levels,
            Some(i) => {
                let picked = levels.update(k, (Some(i as usize), levels[k].1));
                if d + 1 < titles.len() && list[i].children@.len() > 0 {
                    restore(root, picked.push((Some(0usize), list[i].title@)), titles, d + 1)
                } else {
                    restore(root, picked, titles, d + 1)
                }
            },
        }
    }
}

impl AppView {
    pub open spec fn top(self) -> int {
        self.levels.len() - 1
    }

    pub open spec fn list_at(self, k: int) -> Seq<Ticket> {
        level_list(self.tickets, self.levels, k)
    }

    pub open spec fn cur_list(self) -> Seq<Ticket> {
        self.list_at(self.top())
    }

    pub open spec fn wf(self) -> bool {
        levels_wf(self.tickets, self.levels)
    }

    /// The selected ticket of the top list.
    pub open spec fn selected(self) -> Option<Ticket> {
        selected_at(self.tickets, self.levels, self.top())
    }

    /// Titles of the selected tickets of all levels.
    pub open spec fn snapshot(self) -> Seq<Seq<char>> {
        selected_titles(self.tickets, self.levels, self.levels.len() as int)
    }

    /// The top selection moved by `delta`, wrapping around the list.
    pub open spec fn moved(self, delta: int) -> AppView {
        let n = self.cur_list().len();
        if n == 0 {
            self
        } else {
            let c = match self.levels[self.top()].0 {
                Some(i) => i as int,
                None => 0,
            };
            AppView {
                levels: self.levels.update(
                    self.top(),
                    (Some(((c + delta) % (n as int)) as usize), self.levels[self.top()].1),
                ),
                ..self
            }
        }
    }

    /// `enter`: from the detail of a ticket with children, open its
    /// children (first one selected); from a list with a selection, show the
    /// selected ticket in detail; otherwise nothing changes.
    pub open spec fn entered(self) -> AppView {
        if self.detail {
            match self.selected() {
                Some(t) => if t.children@.len() > 0 {
                    AppView { levels: self.levels.push((Some(0usize), t.title@)), detail: false, ..self }
                } else {
                    self
                },
                None => self,
            }
        } else if self.selected() is Some {
            AppView { detail: true, ..self }
        } else {
            self
        }
    }

    /// `back`: leave the detail view, else close the top list unless it is
    /// the root list.
    pub open spec fn backed(self) -> AppView {
        if self.detail {
            AppView { detail: false, ..self }
        } else if self.levels.len() > 1 {
            AppView { levels: self.levels.drop_last(), ..self }
        } else {
            self
        }
    }

    /// `reload` with new root tickets: the root list selects its first
    /// ticket and is labelled `todo`, then the old selections are restored
    /// by title; the detail flag is kept.
    pub open spec fn reloaded(self, tickets: Seq<Ticket>) -> AppView {
        AppView {
            tickets,
            levels: restore(tickets, seq![(first_selection(tickets), "todo"@)], self.snapshot(), 0),
            detail: self.detail,
        }
    }
}

/// A key the browser reacts to.
#[derive(Debug, Clone, Copy, PartialEq, Eq, Structural)]
pub enum Key {
    Char(char),
    Esc,
    Up,
    Down,
    Left,
    Right,
    Enter,
    Backspace,
    Other,
}

/// What the event loop does after a key press.
#[derive(Debug, Clone, Copy, PartialEq, Eq, Structural)]
pub enum Action {
    Continue,
    Reload,
    Quit,
}

/// The state after a key press and what the loop does next: `q`/`Esc` go
/// back, and quit only at the root list; `Q` quits; `j`/down and `k`/up
/// move; `l`/right/enter open; `h`/left/backspace go back; `r` asks for a
/// reload.
pub open spec fn key_effect(v: AppView, key: Key) -> (AppView, Action) {
    match key {
        Key::Char('q') | Key::Esc => if v.detail || v.levels.len() > 1 {
            (v.backed(), Action::Continue)
        } else {
            (v, Action::Quit)
        },
        Key::Char('Q') => (v, Action::Quit),
        Key::Down | Key::Char('j') => (v.moved(1), Action::Continue),
        Key::Up | Key::Char('k') => (v.moved(-1), Action::Continue),
        Key::Right | Key::Char('l') | Key::Enter => (v.entered(), Action::Continue),
        Key::Left | Key::Char('h') | Key::Backspace => (v.backed(), Action::Continue),
        Key::Char('r') => (v, Action::Reload),
        _ => (v, Action::Continue),
    }
}

// ---------------------------------------------------------------------------
// Lemmas
// ---------------------------------------------------------------------------

/// Level lists below `k` only depend on the levels below `k`.
proof fn lemma_level_list_prefix(root: Seq<Ticket>, a: Seq<LevelView>, b: Seq<LevelView>, k: int)
    requires
        0 <= k,
        k <= a.len(),
        k <= b.len(),
        forall|j: int| 0 <= j < k ==> (#[trigger] a[j]).0 == b[j].0,
    ensures
        level_list(root, a, k) == level_list(root, b, k),
    decreases k,
{
    if k > 0 {
        lemma_level_list_prefix(root, a, b, k - 1);
        assert(a[k - 1].0 == b[k - 1].0);
    }
}

proof fn lemma_least_titled(list: Seq<Ticket>, title: Seq<char>, j: int)
    requires
        0 <= j < list.len(),
        list[j].title@ == title,
    ensures
        exists|i: int|
            0 <= i < list.len() && #[trigger] list[i].title@ == title && forall|m: int|
                0 <= m < i ==> list[m].title@ != title,
    decreases j,
{
    if exists|m: int| 0 <= m < j && #[trigger] list[m].title@ == title {
        let m = choose|m: int| 0 <= m < j && #[trigger] list[m].title@ == title;
        lemma_least_titled(list, title, m);
    } else {
        assert(forall|m: int| 0 <= m < j ==> list[m].title@ != title);
    }
}

/// What `first_titled` finds is the first ticket with the title.
pub proof fn lemma_first_titled(list: Seq<Ticket>, title: Seq<char>)
    ensures
        match first_titled(list, title) {
            Some(i) => 0 <= i < list.len() && list[i].title@ == title && forall|m: int|
                0 <= m < i ==> list[m].title@ != title,
            None => forall|m: int| 0 <= m < list.len() ==> list[m].title@ != title,
        },
{
    if exists|i: int| 0 <= i < list.len() && #[trigger] list[i].title@ == title {
        let j = choose|i: int| 0 <= i < list.len() && #[trigger] list[i].title@ == title;
        lemma_least_titled(list, title, j);
    }
}

proof fn lemma_wrap_mod(x: int, n: int, q: int, r: int)
    requires
        n > 0,
        0 <= r < n,
        x == q * n + r,
    ensures
        r == x % n,
{
    lemma_fundamental_div_mod_converse_mod(x, n, q, r);
}

impl App {
    pub open spec fn wf(&self) -> bool {
        self@.wf()
    }

    pub fn new(root: Vec<Ticket>) -> (app: App)
        ensures
            app.wf(),
            app@.tickets == root@,
            app@.levels == seq![(first_selection(root@), "todo"@)],
            !app.detail,
    {
        let select_first = root.len() > 0;
        let label = string_of(chars_of("todo").as_slice());
        let level = ListLevel {
            selected: if select_first {
                Some(0)
            } else {
                None
            },
            label,
        };
        let mut stack: Vec<ListLevel> = Vec::new();
        stack.push(level);
        let app = App { tickets: root, stack, detail: false };
        assert(app@.levels =~= seq![(first_selection(root@), "todo"@)]);
        app
    }

    /// The tickets of the top list.
    pub fn cur_tickets(&self) -> (r: &Vec<Ticket>)
        requires
            self.wf(),
        ensures
            r@ == self@.cur_list(),
    {
        let mut list: &Vec<Ticket> = &self.tickets;
        let mut k: usize = 0;
        let top = self.stack.len() - 1;
        while k < top
            invariant
                self.wf(),
                top == self@.top(),
                k <= top,
                list@ == self@.list_at(k as int),
            decreases top - k,
        {
            assert(self@.levels[k as int].0 is Some);
            let i = self.stack[k].selected.unwrap();
            assert(self@.levels[k as int].0 == Some(i));
            list = &list[i].children;
            k = k + 1;
        }
        list
    }

    /// The top list's level.
    pub fn cur(&self) -> (r: &ListLevel)
        requires
            self.wf(),
        ensures
            (r.selected, r.label@) == self@.levels[self@.top()],
    {
        let top = self.stack.len() - 1;
        &self.stack[top]
    }

    /// The selected ticket of the top list.
    pub fn selected(&self) -> (r: Option<&Ticket>)
        requires
            self.wf(),
        ensures
            match r {
                Some(t) => self@.selected() == Some(*t),
                None => self@.selected() is None,
            },
    {
        let tickets = self.cur_tickets();
        let top = self.stack.len() - 1;
        assert(self@.levels[top as int].0 == self.stack@[top as int].selected);
        match self.stack[top].selected {
            Some(i) => if i < tickets.len() {
                Some(&tickets[i])
            } else {
                None
            },
            None => None,
        }
    }

    /// Move the selection of the top list by `delta`, wrapping around.
    pub fn move_sel(&mut self, delta: i32)
        requires
            old(self).wf(),
        ensures
            final(self).wf(),
            final(self)@ == old(self)@.moved(delta as int),
    {
        let n = self.cur_tickets().len();
        if n == 0 {
            return;
        }
        let k = self.stack.len() - 1;
        let ghost v = self@;
        assert(v.levels[k as int].0 == self.stack@[k as int].selected);
        let c: usize = match self.stack[k].selected {
            Some(i) => i,
            None => 0,
        };
        assert(c < n);
        let next: usize = if delta >= 0 {
            let d = (delta as usize) % n;
            let r = if d >= n - c {
                d - (n - c)
            } else {
                c + d
            };
            proof {
                let q = (delta as usize) as int / n as int;
                vstd::arithmetic::div_mod::lemma_fundamental_div_mod(delta as int, n as int);
                if d >= n - c {
                    assert(c + delta == (q + 1) * n + r) by (nonlinear_arith)
                        requires
                            delta == n * q + d,
                            r == d - (n - c),
                    ;
                    lemma_wrap_mod(c + delta, n as int, q + 1, r as int);
                } else {
                    assert(c + delta == q * n + r) by (nonlinear_arith)
                        requires
                            delta == n * q + d,
                            r == c + d,
                    ;
                    lemma_wrap_mod(c + delta, n as int, q, r as int);
                }
            }
            r
        } else {
            let a: u32 = if delta == i32::MIN {
                2147483648u32
            } else {
                (-delta) as u32
            };
            let d = (a as usize) % n;
            let r = if c >= d {
                c - d
            } else {
                n - (d - c)
            };
            proof {
                let q = (a as usize) as int / n as int;
                vstd::arithmetic::div_mod::lemma_fundamental_div_mod(a as int, n as int);
                assert(delta == -(a as int));
                if c >= d {
                    assert(c + delta == (-q) * n + r) by (nonlinear_arith)
                        requires
                            a == n * q + d,
                            delta == -a,
                            r == c - d,
                    ;
                    lemma_wrap_mod(c + delta, n as int, -q, r as int);
                } else {
                    assert(c + delta == (-q - 1) * n + r) by (nonlinear_arith)
                        requires
                            a == n * q + d,
                            delta == -a,
                            r == n - (d - c),
                    ;
                    lemma_wrap_mod(c + delta, n as int, -q - 1, r as int);
                }
            }
            r
        };
        self.stack[k].selected = Some(next);
        proof {
            assert(self@.levels =~= v.levels.update(k as int, (Some(next), v.levels[k as int].1)));
            assert forall|j: int| 0 <= j <= k implies level_list(self@.tickets, self@.levels, j)
                == level_list(v.tickets, v.levels, j) by {
                lemma_level_list_prefix(v.tickets, self@.levels, v.levels, j);
            }
        }
    }

    /// Open the selected ticket: show its detail, or from the detail view
    /// open its children.
    pub fn enter(&mut self)
        requires
            old(self).wf(),
        ensures
            final(self).wf(),
            final(self)@ == old(self)@.entered(),
    {
        let ghost v = self@;
        if self.detail {
            let label = match self.selected() {
                Some(t) => if t.has_children() {
                    Some(t.title.clone())
                } else {
                    None
                },
                None => None,
            };
            if let Some(label) = label {
                self.stack.push(ListLevel { selected: Some(0), label });
                self.detail = false;
                proof {
                    let k = v.top();
                    assert(self@.levels =~= v.levels.push((Some(0usize), v.selected()->0.title@)));
                    assert forall|j: int| 0 <= j <= k implies level_list(
                        self@.tickets,
                        self@.levels,
                        j,
                    ) == level_list(v.tickets, v.levels, j) by {
                        lemma_level_list_prefix(v.tickets, self@.levels, v.levels, j);
                    }
                    assert(self@.levels[k].0 == v.levels[k].0);
                }
            }
            return;
        }
        if self.selected().is_some() {
            self.detail = true;
        }
    }

    /// Leave the detail view, else close the top list.
    pub fn back(&mut self)
        requires
            old(self).wf(),
        ensures
            final(self).wf(),
            final(self)@ == old(self)@.backed(),
    {
        let ghost v = self@;
        if self.detail {
            self.detail = false;
            return;
        }
        if self.stack.len() > 1 {
            self.stack.pop();
            proof {
                assert(self@.levels =~= v.levels.drop_last());
                assert forall|j: int| 0 <= j < self@.levels.len() implies level_list(
                    self@.tickets,
                    self@.levels,
                    j,
                ) == level_list(v.tickets, v.levels, j) by {
                    lemma_level_list_prefix(v.tickets, self@.levels, v.levels, j);
                }
            }
        }
    }

    /// Titles of the selected tickets of all levels.
    pub fn snapshot(&self) -> (r: Vec<String>)
        requires
            self.wf(),
        ensures
            r@.map_values(|s: String| s@) == self@.snapshot(),
    {
        let mut out: Vec<String> = Vec::new();
        let mut list: &Vec<Ticket> = &self.tickets;
        let mut k: usize = 0;
        let len = self.stack.len();
        while k < len
            invariant
                self.wf(),
                len == self@.levels.len(),
                k <= len,
                k < len ==> list@ == self@.list_at(k as int),
                out@.map_values(|s: String| s@) == selected_titles(
                    self@.tickets,
                    self@.levels,
                    k as int,
                ),
            decreases len - k,
        {
            let ghost before = out@;
            assert(self@.levels[k as int].0 == self.stack@[k as int].selected);
            match self.stack[k].selected {
                Some(i) => if i < list.len() {
                    out.push(list[i].title.clone());
                },
                None => {},
            }
            assert(out@.map_values(|s: String| s@) =~= selected_titles(
                self@.tickets,
                self@.levels,
                k + 1,
            ));
            if k + 1 < len {
                let i = self.stack[k].selected.unwrap();
                list = &list[i].children;
            }
            k = k + 1;
        }
        out
    }
    /// Index of the first ticket of `list` titled `title`.
    fn position_titled(list: &Vec<Ticket>, title: &String) -> (r: Option<usize>)
        ensures
            match r {
                Some(i) => first_titled(list@, title@) == Some(i as int),
                None => first_titled(list@, title@) is None,
            },
    {
        let mut j: usize = 0;
        while j < list.len()
            invariant
                j <= list.len(),
                forall|m: int| 0 <= m < j ==> list@[m].title@ != title@,
            decreases list.len() - j,
        {
            if list[j].title == *title {
                proof {
                    let i = j as int;
                    assert(0 <= i < list@.len() && list@[i].title@ == title@);
                    let c = choose|c: int|
                        0 <= c < list@.len() && #[trigger] list@[c].title@ == title@ && forall|m: int|
                            0 <= m < c ==> list@[m].title@ != title@;
                    if c < i {
                        assert(list@[c].title@ != title@);
                    } else if i < c {
                        assert(list@[i].title@ != title@);
                    }
                }
                return Some(j);
            }
            j = j + 1;
        }
        None
    }

    /// Replace the tickets, keeping the place: the old selections are
    /// looked up again by title, level by level.
    pub fn reload(&mut self, tickets: Vec<Ticket>)
        requires
            old(self).wf(),
        ensures
            final(self).wf(),
            final(self)@ == old(self)@.reloaded(tickets@),
    {
        let snapshot = self.snapshot();
        let ghost titles = snapshot@.map_values(|s: String| s@);
        let detail = self.detail;
        self.tickets = tickets;
        let select_first = self.tickets.len() > 0;
        let label = string_of(chars_of("todo").as_slice());
        let mut stack: Vec<ListLevel> = Vec::new();
        stack.push(
            ListLevel {
                selected: if select_first {
                    Some(0)
                } else {
                    None
                },
                label,
            },
        );
        self.stack = stack;
        let ghost start = self@.levels;
        assert(start =~= seq![(first_selection(tickets@), "todo"@)]);
        let mut d: usize = 0;
        while d < snapshot.len()
            invariant
                self.wf(),
                self@.tickets == tickets@,
                self.detail == detail,
                titles == snapshot@.map_values(|s: String| s@),
                d <= snapshot.len(),
                restore(tickets@, self@.levels, titles, d as int) == restore(
                    tickets@,
                    start,
                    titles,
                    0,
                ),
            decreases snapshot.len() - d,
        {
            let ghost v = self@;
            let k = self.stack.len() - 1;
            let found = App::position_titled(self.cur_tickets(), &snapshot[d]);
            assert(titles[d as int] == snapshot@[d as int]@);
            proof {
                lemma_first_titled(v.cur_list(), titles[d as int]);
            }
            match found {
                None => {
                    d = snapshot.len();
                },
                Some(i) => {
                    let opened = {
                        let list = self.cur_tickets();
                        assert(list@[i as int].title@ == titles[d as int]);
                        if d + 1 < snapshot.len() && list[i].has_children() {
                            Some(list[i].title.clone())
                        } else {
                            None
                        }
                    };
                    self.stack[k].selected = Some(i);
                    proof {
                        assert(self@.levels =~= v.levels.update(k as int, (Some(i), v.levels[k as int].1)));
                        assert forall|j: int| 0 <= j <= k implies level_list(
                            self@.tickets,
                            self@.levels,
                            j,
                        ) == level_list(v.tickets, v.levels, j) by {
                            lemma_level_list_prefix(v.tickets, self@.levels, v.levels, j);
                        }
                    }
                    let ghost picked = self@.levels;
                    if let Some(label) = opened {
                        self.stack.push(ListLevel { selected: Some(0), label });
                        proof {
                            assert(self@.levels =~= picked.push((Some(0usize), v.cur_list()[i as int].title@)));
                            assert forall|j: int| 0 <= j <= k implies level_list(
                                self@.tickets,
                                self@.levels,
                                j,
                            ) == level_list(v.tickets, picked, j) by {
                                lemma_level_list_prefix(v.tickets, self@.levels, picked, j);
                            }
                        }
                    }
                    d = d + 1;
                },
            }
        }
        self.detail = detail;
    }

    /// React to a key: move, open, go back, quit or ask for a reload.
    pub fn handle_key(&mut self, key: Key) -> (a: Action)
        requires
            old(self).wf(),
        ensures
            final(self).wf(),
            (final(self)@, a) == key_effect(old(self)@, key),
    {
        match key {
            Key::Char('q') | Key::Esc => {
                if self.detail || self.stack.len() > 1 {
                    self.back();
                    Action::Continue
                } else {
                    Action::Quit
                }
            },
            Key::Char('Q') => Action::Quit,
            Key::Down | Key::Char('j') => {
                self.move_sel(1);
                Action::Continue
            },
            Key::Up | Key::Char('k') => {
                self.move_sel(-1);
                Action::Continue
            },
            Key::Right | Key::Char('l') | Key::Enter => {
                self.enter();
                Action::Continue
            },
            Key::Left | Key::Char('h') | Key::Backspace => {
                self.back();
                Action::Continue
            },
            Key::Char('r') => Action::Reload,
            _ => Action::Continue,
        }
    }
}

// ---------------------------------------------------------------------------
// Laws
// ---------------------------------------------------------------------------

impl AppView {
    /// The root list is labelled `todo` and every other list with the title
    /// of the ticket it was opened from, as `new`, `enter` and `reload` make
    /// them.
    pub open spec fn labels_follow_titles(self) -> bool {
        &&& self.levels[0].1 == "todo"@
        &&& forall|k: int|
            0 <= k < self.top() ==> #[trigger] self.levels[k + 1].1 == self.list_at(
                k,
            )[self.levels[k].0.unwrap() as int].title@
    }

    /// Every selected ticket is the first of its list with its title.
    pub open spec fn selections_first_titled(self) -> bool {
        forall|k: int|
            0 <= k < self.levels.len() ==> match #[trigger] self.levels[k].0 {
                Some(i) => first_titled(self.list_at(k), self.list_at(k)[i as int].title@) == Some(
                    i as int,
                ),
                None => true,
            }
    }
}

/// Moving steps through the open list with wrap-around: down selects the
/// next ticket, and the first after the last; up selects the previous one,
/// and the last before the first. Nothing else changes.
pub proof fn law_move_steps(v: AppView)
    requires
        v.wf(),
        v.cur_list().len() > 0,
    ensures
        ({
            let n = v.cur_list().len() as int;
            let c = v.levels[v.top()].0->0 as int;
            let down = v.moved(1);
            let up = v.moved(-1);
            &&& down.levels[v.top()].0 == Some((if c + 1 < n { c + 1 } else { 0 }) as usize)
            &&& up.levels[v.top()].0 == Some((if c > 0 { c - 1 } else { n - 1 }) as usize)
            &&& down.levels.len() == v.levels.len() && up.levels.len() == v.levels.len()
            &&& down.levels[v.top()].1 == v.levels[v.top()].1
            &&& forall|k: int| 0 <= k < v.top() ==> down.levels[k] == v.levels[k] && up.levels[k]
                == v.levels[k]
            &&& down.tickets == v.tickets && down.detail == v.detail
            &&& up.tickets == v.tickets && up.detail == v.detail
        }),
{
    let n = v.cur_list().len() as int;
    assert(v.levels[v.top()].0 is Some);
    let c = v.levels[v.top()].0->0 as int;
    assert(0 <= c < n);
    if c + 1 < n {
        lemma_wrap_mod(c + 1, n, 0, c + 1);
    } else {
        lemma_wrap_mod(c + 1, n, 1, 0);
    }
    if c > 0 {
        lemma_wrap_mod(c - 1, n, 0, c - 1);
    } else {
        lemma_wrap_mod(c - 1, n, -1, n - 1);
    }
}

/// Only `r` asks for a reload, and it changes no state.
pub proof fn law_reload_key(v: AppView, k: Key)
    ensures
        key_effect(v, k).1 == Action::Reload <==> k == Key::Char('r'),
        k == Key::Char('r') ==> key_effect(v, k).0 == v,
{
}

/// Only `Q`, and `q`/`Esc` at the root list, quit; quitting changes no
/// state. Elsewhere `q`/`Esc` go back: from the detail view to its list,
/// else from a nested list to its parent list, and the loop goes on.
pub proof fn law_quit_only_at_root(v: AppView, k: Key)
    requires
        v.levels.len() >= 1,
    ensures
        key_effect(v, k).1 == Action::Quit <==> (k == Key::Char('Q') || ((k == Key::Char('q')
            || k == Key::Esc) && !v.detail && v.levels.len() == 1)),
        key_effect(v, k).1 == Action::Quit ==> key_effect(v, k).0 == v,
        (k == Key::Char('q') || k == Key::Esc) && (v.detail || v.levels.len() > 1) ==> {
            let w = key_effect(v, k).0;
            &&& key_effect(v, k).1 == Action::Continue
            &&& !w.detail
            &&& w.tickets == v.tickets
            &&& v.detail ==> w.levels == v.levels
            &&& !v.detail ==> w.levels == v.levels.drop_last()
        },
{
}

/// Showing the selected ticket in detail and going back returns to the
/// same list view.
pub proof fn law_enter_then_back_from_list(v: AppView)
    requires
        v.wf(),
        !v.detail,
        v.selected() is Some,
    ensures
        v.entered().backed() == v,
{
}

/// Opening a ticket's children from its detail view and going back returns
/// to its list, with the detail view closed.
pub proof fn law_open_children_then_back(v: AppView)
    requires
        v.wf(),
        v.detail,
        v.selected() matches Some(t) && t.children@.len() > 0,
    ensures
        v.entered().backed() == (AppView { detail: false, ..v }),
{
    assert(v.entered().levels.drop_last() =~= v.levels);
}

/// Moving the selection by `delta` and then by `-delta` puts it back.
pub proof fn law_move_round_trip(v: AppView, delta: int)
    requires
        v.wf(),
        v.cur_list().len() <= usize::MAX,
    ensures
        v.moved(delta).moved(-delta) == v,
{
    let n = v.cur_list().len();
    if n > 0 {
        let k = v.top();
        let c = v.levels[k].0.unwrap() as int;
        let w = v.moved(delta);
        assert forall|j: int| 0 <= j <= k implies level_list(w.tickets, w.levels, j) == level_list(
            v.tickets,
            v.levels,
            j,
        ) by {
            lemma_level_list_prefix(v.tickets, w.levels, v.levels, j);
        }
        let x = c + delta;
        let r = x % (n as int);
        vstd::arithmetic::div_mod::lemma_fundamental_div_mod(x, n as int);
        let q = x / (n as int);
        assert(r - delta == (-q) * n + c) by (nonlinear_arith)
            requires
                x == n * q + r,
                x == c + delta,
        ;
        lemma_wrap_mod(r - delta, n as int, -q, c);
        assert(w.levels[k].0 == Some(r as usize));
        assert(w.cur_list() == v.cur_list());
        assert(w.top() == k);
        let u = w.moved(-delta);
        assert(u.levels[k] == v.levels[k]);
        assert(u.levels =~= v.levels);
    }
}

proof fn lemma_selected_titles(root: Seq<Ticket>, levels: Seq<LevelView>, k: int)
    requires
        0 <= k <= levels.len(),
        forall|j: int|
            0 <= j < k ==> ((#[trigger] levels[j]).0 matches Some(i) && i < level_list(
                root,
                levels,
                j,
            ).len()),
    ensures
        selected_titles(root, levels, k).len() == k,
        forall|j: int|
            0 <= j < k ==> #[trigger] selected_titles(root, levels, k)[j] == level_list(
                root,
                levels,
                j,
            )[levels[j].0.unwrap() as int].title@,
    decreases k,
{
    if k > 0 {
        lemma_selected_titles(root, levels, k - 1);
        assert(levels[k - 1].0 is Some);
        let prev = selected_titles(root, levels, k - 1);
        let t = selected_at(root, levels, k - 1)->0;
        assert(selected_titles(root, levels, k) == prev + seq![t.title@]);
        assert forall|j: int| 0 <= j < k implies #[trigger] selected_titles(root, levels, k)[j]
            == level_list(root, levels, j)[levels[j].0.unwrap() as int].title@ by {
            if j < k - 1 {
                assert(selected_titles(root, levels, k)[j] == prev[j]);
            }
        }
    }
}

/// Restoring from a freshly opened level `d` rebuilds the remaining levels.
#[verifier::rlimit(60)]
#[verifier::spinoff_prover]
proof fn lemma_restore_rebuilds(v: AppView, titles: Seq<Seq<char>>, d: int)
    requires
        v.wf(),
        v.labels_follow_titles(),
        v.selections_first_titled(),
        0 <= d <= v.top(),
        titles.len() == v.levels.len(),
        forall|j: int| 0 <= j < v.levels.len() ==> (#[trigger] v.levels[j]).0 is Some,
        forall|j: int|
            0 <= j < titles.len() ==> #[trigger] titles[j] == v.list_at(j)[v.levels[j].0.unwrap() as int].title@,
    ensures
        restore(v.tickets, v.levels.take(d).push((Some(0usize), v.levels[d].1)), titles, d)
            == v.levels,
    decreases v.top() - d,
{
    let pre = v.levels.take(d).push((Some(0usize), v.levels[d].1));
    let m = v.top();
    assert(pre.len() - 1 == d);
    let list = level_list(v.tickets, pre, d);
    assert(list == v.list_at(d)) by {
        lemma_level_list_prefix(v.tickets, pre, v.levels, d);
    }
    let i = v.levels[d].0.unwrap() as int;
    assert(titles[d] == list[i].title@);
    assert(first_titled(list, titles[d]) == Some(i));
    let picked = pre.update(d, (Some(i as usize), pre[d].1));
    assert(picked =~= v.levels.take(d + 1));
    if d < m {
        assert(list[i].children@.len() > 0);
        assert(v.levels[d + 1].1 == list[i].title@);
        let next = picked.push((Some(0usize), list[i].title@));
        assert(restore(v.tickets, pre, titles, d) == restore(v.tickets, next, titles, d + 1));
        assert(next =~= v.levels.take(d + 1).push((Some(0usize), v.levels[d + 1].1)));
        lemma_restore_rebuilds(v, titles, d + 1);
    } else {
        assert(restore(v.tickets, pre, titles, d) == restore(v.tickets, picked, titles, d + 1));
        assert(v.levels.take(d + 1) =~= v.levels);
    }
}

/// Reloading an unchanged tree keeps the place: every selection and every
/// open list comes back, provided the lists are labelled as `new`, `enter`
/// and `reload` label them and each selected ticket is the first of its
/// list with its title (reload finds tickets again by title).
pub proof fn law_reload_unchanged_keeps_place(v: AppView)
    requires
        v.wf(),
        v.labels_follow_titles(),
        v.selections_first_titled(),
    ensures
        v.reloaded(v.tickets) == v,
{
    let m = v.top();
    if v.levels[m].0 is None {
        // Only the root list can be empty: every other list holds children.
        if m > 0 {
            assert(v.levels[m - 1].0 is Some);
            assert(v.list_at(m) == v.list_at(m - 1)[v.levels[m - 1].0.unwrap() as int].children@);
        }
        assert(m == 0);
        assert(v.levels.len() == 1);
        assert(v.tickets.len() == 0);
        assert(selected_at(v.tickets, v.levels, 0) is None);
        assert(selected_titles(v.tickets, v.levels, 0) =~= Seq::<Seq<char>>::empty());
        assert(selected_titles(v.tickets, v.levels, 1) =~= Seq::<Seq<char>>::empty());
        assert(v.snapshot() =~= Seq::<Seq<char>>::empty());
        assert(seq![(first_selection(v.tickets), "todo"@)] =~= v.levels);
    } else {
        assert forall|j: int| 0 <= j < v.levels.len() implies (#[trigger] v.levels[j]).0 is Some by {
            if j < m {
                assert(v.levels[j].0 is Some);
            }
        }
        lemma_selected_titles(v.tickets, v.levels, v.levels.len() as int);
        let titles = v.snapshot();
        assert(v.tickets.len() > 0) by {
            assert(v.levels[0].0 is Some);
        }
        assert(v.levels.take(0).push((Some(0usize), v.levels[0].1)) =~= seq![
            (first_selection(v.tickets), "todo"@),
        ]);
        lemma_restore_rebuilds(v, titles, 0);
    }
}


/// Every list fits in memory when the root list does: the others are
/// vectors of children.
proof fn lemma_list_fits(root: Seq<Ticket>, levels: Seq<LevelView>, k: int)
    requires
        root.len() <= usize::MAX,
    ensures
        level_list(root, levels, k).len() <= usize::MAX,
{
    if k > 0 {
        let prev = level_list(root, levels, k - 1);
        let t = prev[levels[k - 1].0.unwrap() as int];
        assert(t.children.len() == t.children@.len());
    }
}

/// `restore` keeps the labels naming the tickets the lists were opened from.
proof fn lemma_restore_labels(root: Seq<Ticket>, levels: Seq<LevelView>, titles: Seq<Seq<char>>, d: int)
    requires
        root.len() <= usize::MAX,
        levels_wf(root, levels),
        (AppView { tickets: root, levels, detail: false }).labels_follow_titles(),
    ensures
        levels_wf(root, restore(root, levels, titles, d)),
        (AppView { tickets: root, levels: restore(root, levels, titles, d), detail: false }).labels_follow_titles(),
    decreases titles.len() - d,
{
    if !(d < 0 || d >= titles.len()) {
        let v = AppView { tickets: root, levels, detail: false };
        let k = levels.len() - 1;
        let list = level_list(root, levels, k);
        match first_titled(list, titles[d]) {
            None => {},
            Some(i) => {
                lemma_first_titled(list, titles[d]);
                lemma_list_fits(root, levels, k);
                let picked = levels.update(k, (Some(i as usize), levels[k].1));
                assert forall|j: int| 0 <= j <= k implies level_list(root, picked, j) == level_list(
                    root,
                    levels,
                    j,
                ) by {
                    lemma_level_list_prefix(root, picked, levels, j);
                }
                let pv = AppView { tickets: root, levels: picked, detail: false };
                assert(levels_wf(root, picked));
                assert(pv.labels_follow_titles()) by {
                    assert forall|j: int| 0 <= j < pv.top() implies #[trigger] pv.levels[j + 1].1
                        == pv.list_at(j)[pv.levels[j].0.unwrap() as int].title@ by {
                        assert(pv.levels[j + 1].1 == v.levels[j + 1].1);
                        assert(pv.levels[j] == v.levels[j]);
                    }
                }
                if d + 1 < titles.len() && list[i].children@.len() > 0 {
                    let next = picked.push((Some(0usize), list[i].title@));
                    assert forall|j: int| 0 <= j <= k implies level_list(root, next, j) == level_list(
                        root,
                        picked,
                        j,
                    ) by {
                        lemma_level_list_prefix(root, next, picked, j);
                    }
                    assert(level_list(root, next, k + 1) == list[i].children@);
                    assert(levels_wf(root, next));
                    let nv = AppView { tickets: root, levels: next, detail: false };
                    assert(nv.labels_follow_titles()) by {
                        assert forall|j: int| 0 <= j < nv.top() implies #[trigger] nv.levels[j + 1].1
                            == nv.list_at(j)[nv.levels[j].0.unwrap() as int].title@ by {
                            if j < k {
                                assert(nv.levels[j + 1] == pv.levels[j + 1]);
                                assert(nv.levels[j] == pv.levels[j]);
                            }
                        }
                    }
                    lemma_restore_labels(root, next, titles, d + 1);
                } else {
                    lemma_restore_labels(root, picked, titles, d + 1);
                }
            },
        }
    }
}

/// Lists are labelled by where they were opened from: `new` labels the root
/// list `todo`, and moving, entering, going back and reloading keep every
/// other list labelled with the title of the ticket it lists the children of.
pub proof fn law_labels_follow_titles(v: AppView, delta: int, tickets: Seq<Ticket>)
    requires
        v.wf(),
        v.labels_follow_titles(),
        tickets.len() <= usize::MAX,
    ensures
        (AppView { tickets, levels: seq![(first_selection(tickets), "todo"@)], detail: false })
            .labels_follow_titles(),
        v.moved(delta).labels_follow_titles(),
        v.entered().labels_follow_titles(),
        v.backed().labels_follow_titles(),
        v.reloaded(tickets).labels_follow_titles(),
{
    let k = v.top();
    let m = v.moved(delta);
    assert forall|j: int| 0 <= j <= k implies level_list(m.tickets, m.levels, j) == level_list(
        v.tickets,
        v.levels,
        j,
    ) by {
        lemma_level_list_prefix(v.tickets, m.levels, v.levels, j);
    }
    assert forall|j: int| 0 <= j < m.top() implies #[trigger] m.levels[j + 1].1 == m.list_at(
        j,
    )[m.levels[j].0.unwrap() as int].title@ by {
        assert(m.levels[j + 1].1 == v.levels[j + 1].1);
        assert(m.levels[j] == v.levels[j]);
    }
    let e = v.entered();
    assert forall|j: int| 0 <= j <= k implies level_list(e.tickets, e.levels, j) == level_list(
        v.tickets,
        v.levels,
        j,
    ) by {
        lemma_level_list_prefix(v.tickets, e.levels, v.levels, j);
    }
    assert forall|j: int| 0 <= j < e.top() implies #[trigger] e.levels[j + 1].1 == e.list_at(
        j,
    )[e.levels[j].0.unwrap() as int].title@ by {
        if j < k {
            assert(e.levels[j + 1] == v.levels[j + 1]);
            assert(e.levels[j] == v.levels[j]);
        }
    }
    let b = v.backed();
    assert forall|j: int| 0 <= j < b.levels.len() implies level_list(b.tickets, b.levels, j)
        == level_list(v.tickets, v.levels, j) by {
        lemma_level_list_prefix(v.tickets, b.levels, v.levels, j);
    }
    assert forall|j: int| 0 <= j < b.top() implies #[trigger] b.levels[j + 1].1 == b.list_at(
        j,
    )[b.levels[j].0.unwrap() as int].title@ by {
        assert(b.levels[j + 1] == v.levels[j + 1]);
        assert(b.levels[j] == v.levels[j]);
    }
    let start = seq![(first_selection(tickets), "todo"@)];
    assert(levels_wf(tickets, start));
    assert((AppView { tickets, levels: start, detail: false }).labels_follow_titles());
    lemma_restore_labels(tickets, start, v.snapshot(), 0);
}

} // verus!
