//! The state of the match viewer: which stream's tab is shown, and what a key
//! press does.
use vstd::prelude::*;

verus! {

/// The tabs of the viewer, one per stream.
#[derive(Clone, Copy, Debug, PartialEq, Eq, Structural)]
pub enum TabKind {
    Stdin,
    Stdout,
    Stderr,
}

pub open spec fn tab_index(t: TabKind) -> nat {
    match t {
        TabKind::Stdin => 0,
        TabKind::Stdout => 1,
        TabKind::Stderr => 2,
    }
}

pub open spec fn tab_at(i: nat) -> TabKind {
    if i % 3 == 0 {
        TabKind::Stdin
    } else if i % 3 == 1 {
        TabKind::Stdout
    } else {
        TabKind::Stderr
    }
}

pub open spec fn next_tab(t: TabKind) -> TabKind {
    tab_at(tab_index(t) + 1)
}

pub open spec fn prev_tab(t: TabKind) -> TabKind {
    tab_at(tab_index(t) + 2)
}

/// Moving one tab left undoes moving one tab right, and the other way round.
pub proof fn lemma_prev_next_inverse(t: TabKind)
    ensures
        prev_tab(next_tab(t)) == t,
        next_tab(prev_tab(t)) == t,
{
}

/// Moving right three times comes back to the same tab.
pub proof fn lemma_next_cycles(t: TabKind)
    ensures
        next_tab(next_tab(next_tab(t))) == t,
{
}

/// A tab is the tab at its own index, and the indices are 0, 1 and 2.
pub proof fn lemma_index_roundtrip(t: TabKind)
    ensures
        tab_at(tab_index(t)) == t,
        tab_index(t) < 3,
{
}

impl TabKind {
    /// The tab's position: 0, 1 or 2.
    pub fn index(self) -> (res: usize)
        ensures
            res == tab_index(self),
    {
        match self {
            TabKind::Stdin => 0,
            TabKind::Stdout => 1,
            TabKind::Stderr => 2,
        }
    }

    /// The tab at a position, counted modulo 3.
    pub fn from_index(i: usize) -> (res: TabKind)
        ensures
            res == tab_at(i as nat),
    {
        if i % 3 == 0 {
            TabKind::Stdin
        } else if i % 3 == 1 {
            TabKind::Stdout
        } else {
            TabKind::Stderr
        }
    }

    /// The tab to the right, wrapping around to the first.
    pub fn next(self) -> (res: TabKind)
        ensures
            res == next_tab(self),
    {
        TabKind::from_index(self.index() + 1)
    }

    /// The tab to the left, wrapping around to the last.
    pub fn prev(self) -> (res: TabKind)
        ensures
            res == prev_tab(self),
    {
        TabKind::from_index(self.index() + 3 - 1)
    }

    /// The tab's title.
    pub fn title(self) -> (res: &'static str)
        ensures
            res@ == (match self {
                TabKind::Stdin => "stdin"@,
                TabKind::Stdout => "stdout"@,
                TabKind::Stderr => "stderr"@,
            }),
    {
        match self {
            TabKind::Stdin => "stdin",
            TabKind::Stdout => "stdout",
            TabKind::Stderr => "stderr",
        }
    }
}

/// A key press, as far as the viewer tells keys apart.
#[derive(Clone, Copy, Debug, PartialEq, Eq)]
pub enum Key {
    Char(char),
    Esc,
    Left,
    Right,
    Up,
    Down,
    Home,
    End,
    Enter,
    Tab,
    Other,
}

/// What to do with the shown tab's list: move the selection, or open the
/// selected path.
#[derive(Clone, Copy, Debug, PartialEq, Eq, Structural)]
pub enum ListCommand {
    SelectNext,
    SelectPrevious,
    SelectFirst,
    SelectLast,
    /// Select the next path found on the same line of the text as the
    /// selected one (see `Packed::next_on_same_line`).
    SelectNextOnLine,
    /// Open the selected path in the editor.
    OpenSelected,
}

/// Whether the viewer should stop, and which tab it shows.
pub struct ViewerState {
    pub should_exit: bool,
    pub current_tab: TabKind,
}

/// What a key press does: `q`/Esc quits, `h`/Left and `l`/Right switch tabs,
/// `j`/Down, `k`/Up, `g`/Home and `G`/End move the selection, Tab moves it to the
/// next path on the same line, Enter opens the selected path; every other key
/// does nothing.
pub open spec fn key_step(s: ViewerState, key: Key) -> (ViewerState, Option<ListCommand>) {
    match key {
        Key::Char('q') | Key::Esc => (ViewerState { should_exit: true, ..s }, None),
        Key::Char('h') | Key::Left => (ViewerState { current_tab: prev_tab(s.current_tab), ..s }, None),
        Key::Char('l') | Key::Right => (ViewerState { current_tab: next_tab(s.current_tab), ..s }, None),
        Key::Char('j') | Key::Down => (s, Some(ListCommand::SelectNext)),
        Key::Char('k') | Key::Up => (s, Some(ListCommand::SelectPrevious)),
        Key::Char('g') | Key::Home => (s, Some(ListCommand::SelectFirst)),
        Key::Char('G') | Key::End => (s, Some(ListCommand::SelectLast)),
        Key::Tab => (s, Some(ListCommand::SelectNextOnLine)),
        Key::Enter => (s, Some(ListCommand::OpenSelected)),
        _ => (s, None),
    }
}

/// Switching one tab left and then one tab right (or the other way round)
/// comes back to the same state, and switching tabs never touches the
/// selection.
pub proof fn lemma_tab_switches_undo(s: ViewerState)
    ensures
        key_step(key_step(s, Key::Left).0, Key::Right).0 == s,
        key_step(key_step(s, Key::Right).0, Key::Left).0 == s,
        key_step(s, Key::Left).1 is None,
        key_step(s, Key::Right).1 is None,
{
    lemma_prev_next_inverse(s.current_tab);
}

impl ViewerState {
    /// A viewer that runs and shows `start_tab`.
    pub fn new(start_tab: TabKind) -> (res: ViewerState)
        ensures
            !res.should_exit,
            res.current_tab == start_tab,
    {
        ViewerState { should_exit: false, current_tab: start_tab }
    }

    /// Applies a key press and returns what to do with the shown tab's list,
    /// if anything.
    pub fn handle_key(&mut self, key: Key) -> (cmd: Option<ListCommand>)
        ensures
            (*final(self), cmd) == key_step(*old(self), key),
    {
        match key {
            Key::Char('q') | Key::Esc => {
                self.should_exit = true;
                None
            },
            Key::Char('h') | Key::Left => {
                self.current_tab = self.current_tab.prev();
                None
            },
            Key::Char('l') | Key::Right => {
                self.current_tab = self.current_tab.next();
                None
            },
            Key::Char('j') | Key::Down => Some(ListCommand::SelectNext),
            Key::Char('k') | Key::Up => Some(ListCommand::SelectPrevious),
            Key::Char('g') | Key::Home => Some(ListCommand::SelectFirst),
            Key::Char('G') | Key::End => Some(ListCommand::SelectLast),
            Key::Tab => Some(ListCommand::SelectNextOnLine),
            Key::Enter => Some(ListCommand::OpenSelected),
            _ => None,
        }
    }
}

/// The background of a list row: rows alternate, starting with the normal one.
#[derive(Clone, Copy, Debug, PartialEq, Eq, Structural)]
pub enum RowShade {
    Normal,
    Alternate,
}

/// The background of the row at index `i`.
pub fn row_shade(i: usize) -> (res: RowShade)
    ensures
        res == (if i % 2 == 0 { RowShade::Normal } else { RowShade::Alternate }),
{
    if i % 2 == 0 {
        RowShade::Normal
    } else {
        RowShade::Alternate
    }
}

/// The editor to open paths with: the configured one (the `EDITOR` variable),
/// or `nvim` when none is configured or it is empty.
pub fn editor_program(configured: Option<&str>) -> (res: String)
    ensures
        res@ == (match configured {
            Some(e) if e@.len() > 0 => e@,
            _ => "nvim"@,
        }),
{
    match configured {
        Some(e) => {
            if e.is_empty() {
                "nvim".to_owned()
            } else {
                e.to_owned()
            }
        },
        None => "nvim".to_owned(),
    }
}

} // verus!
