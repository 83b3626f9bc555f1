use vstd::prelude::*;

verus! {

/// What the dashboard is showing: every file at once, or a single one.
#[derive(Clone, Copy, Debug, PartialEq, Eq, Structural)]
pub enum ViewSelection {
    Overview,
    Single(usize),
}

/// A semantic input action, already decoded from a raw key event.
#[derive(Clone, Copy, Debug, PartialEq, Eq, Structural)]
pub enum InputAction {
    SelectTab(usize),
    Quit,
    Noop,
}

/// What the render loop wakes on: a file-change notification or an input
/// action.
#[derive(Clone, Copy, Debug, PartialEq, Eq, Structural)]
pub enum LoopEvent {
    Changed,
    Input(InputAction),
}

/// The tab transition over `count` tailers: digit 0 and every out-of-range
/// digit give the overview; digits 1 through `count` select that file.
pub open spec fn spec_select_tab(n: int, count: int) -> ViewSelection {
    if 1 <= n <= count {
        ViewSelection::Single((n - 1) as usize)
    } else {
        ViewSelection::Overview
    }
}

/// The action one pressed character decodes to: a digit selects that tab,
/// `q` quits, anything else is a no-op.
pub open spec fn spec_translate_key(c: char) -> InputAction {
    if c == 'q' {
        InputAction::Quit
    } else if '0' <= c && c <= '9' {
        InputAction::SelectTab((c as int - '0' as int) as usize)
    } else {
        InputAction::Noop
    }
}

pub fn translate_key(c: char) -> (r: InputAction)
    ensures
        r == spec_translate_key(c),
{
    if c == 'q' {
        InputAction::Quit
    } else if c >= '0' && c <= '9' {
        InputAction::SelectTab((c as u32 - '0' as u32) as usize)
    } else {
        InputAction::Noop
    }
}

/// How one render-loop event moves the view: a tab selection is applied,
/// every other event leaves it alone.
pub open spec fn spec_step_view(pre: ViewSelection, count: int, ev: LoopEvent) -> ViewSelection {
    match ev {
        LoopEvent::Input(InputAction::SelectTab(n)) => spec_select_tab(n as int, count),
        _ => pre,
    }
}

/// Whether the render loop goes on after an event: only `Quit` ends it.
pub open spec fn spec_step_continue(ev: LoopEvent) -> bool {
    !(ev matches LoopEvent::Input(InputAction::Quit))
}

/// The view-selection state over an ordered set of tailers.  The render loop
/// drives it with decoded input actions; nothing else mutates it.
pub struct App {
    view: ViewSelection,
    n_tailers: usize,
}

impl App {
    pub closed spec fn spec_view(&self) -> ViewSelection {
        self.view
    }

    pub closed spec fn spec_n_tailers(&self) -> nat {
        self.n_tailers as nat
    }

    /// A selected single file always exists.
    pub open spec fn wf(&self) -> bool {
        self.spec_view() matches ViewSelection::Single(i) ==> (i as nat) < self.spec_n_tailers()
    }

    /// A session over `n_tailers` files starts on the overview.
    pub fn new(n_tailers: usize) -> (r: Self)
        ensures
            r.spec_view() == ViewSelection::Overview,
            r.spec_n_tailers() == n_tailers,
            r.wf(),
    {
        App { view: ViewSelection::Overview, n_tailers }
    }

    pub fn active_view(&self) -> (r: ViewSelection)
        ensures
            r == self.spec_view(),
    {
        self.view
    }

    pub fn n_tailers(&self) -> (r: usize)
        ensures
            r == self.spec_n_tailers(),
    {
        self.n_tailers
    }

    /// Move to the tab the pressed digit names; out-of-range digits clamp to
    /// the overview rather than being rejected.
    pub fn move_to_tab(&mut self, n: usize)
        ensures
            final(self).spec_view() == spec_select_tab(n as int, old(self).spec_n_tailers() as int),
            final(self).spec_n_tailers() == old(self).spec_n_tailers(),
            final(self).wf(),
    {
        if n == 0 {
            self.view = ViewSelection::Overview;
        } else if n <= self.n_tailers {
            self.view = ViewSelection::Single(n - 1);
        } else {
            self.view = ViewSelection::Overview;
        }
    }

    /// One render-loop decision: `Quit` ends the loop; a tab selection moves
    /// the view; every other event, a change notification included, keeps the
    /// state and asks for a redraw.
    pub fn step(&mut self, ev: LoopEvent) -> (cont: bool)
        requires
            old(self).wf(),
        ensures
            cont == spec_step_continue(ev),
            final(self).spec_view() == spec_step_view(old(self).spec_view(), old(self).spec_n_tailers() as int, ev),
            final(self).spec_n_tailers() == old(self).spec_n_tailers(),
            final(self).wf(),
    {
        match ev {
            LoopEvent::Input(InputAction::Quit) => false,
            LoopEvent::Input(InputAction::SelectTab(n)) => {
                self.move_to_tab(n);
                true
            },
            _ => true,
        }
    }
}

} // verus!
