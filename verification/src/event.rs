//! Input as the tracker sees it, and what each input asks for.

use vstd::prelude::*;

verus! {

/// A key that is not a printable character.
#[derive(Clone, Copy, Debug, PartialEq, Eq, Structural)]
pub enum Key {
    Enter,
    Tab,
    Backspace,
    Left,
    Right,
    Up,
    Down,
    /// Any key that the tracker gives no meaning.
    Other,
}

/// One input from the surrounding user interface.
#[derive(Clone, Copy, Debug, PartialEq, Eq, Structural)]
pub enum Event {
    /// A printable character.
    Char(char),
    /// A key pressed alone.
    Key(Key),
    /// A key pressed together with shift.
    Shift(Key),
    /// Anything else: the mouse, a resize, a key with another modifier.
    Other,
}

/// A way to move the focus across the grid.
#[derive(Clone, Copy, Debug, PartialEq, Eq, Structural)]
pub enum Direction {
    Left,
    Right,
    Up,
    Down,
}

/// A change to what is recorded for today.
#[derive(Clone, Copy, Debug, PartialEq, Eq, Structural)]
pub enum Step {
    /// One more, or done.
    Up,
    /// One less, or not done.
    Down,
}

/// What an input asks of the tracker.
#[derive(Clone, Copy, Debug, PartialEq, Eq, Structural)]
pub enum Command {
    /// Move the focus.
    Focus(Direction),
    /// Append the sample habit.
    AddSample,
    /// Remove the focused habit.
    RemoveFocused,
    /// Write the snapshot and go on.
    Save,
    /// Write the snapshot and leave.
    SaveAndQuit,
    /// None of these: the input goes to the focused habit.
    Forward,
}

impl Event {
    /// The tracker's key bindings.
    ///
    /// | input | command |
    /// |---|---|
    /// | right, tab, `l` | focus right |
    /// | left, shift-tab, `h` | focus left |
    /// | up, `k` | focus up |
    /// | down, `j` | focus down |
    /// | `a` | add the sample habit |
    /// | `d` | remove the focused habit |
    /// | `w` | save |
    /// | `q` | save and quit |
    /// | anything else | forward to the focused habit |
    pub open spec fn command(self) -> Command {
        match self {
            Event::Key(Key::Right) | Event::Key(Key::Tab) | Event::Char('l') => Command::Focus(
                Direction::Right,
            ),
            Event::Key(Key::Left) | Event::Shift(Key::Tab) | Event::Char('h') => Command::Focus(
                Direction::Left,
            ),
            Event::Key(Key::Up) | Event::Char('k') => Command::Focus(Direction::Up),
            Event::Key(Key::Down) | Event::Char('j') => Command::Focus(Direction::Down),
            Event::Char('a') => Command::AddSample,
            Event::Char('d') => Command::RemoveFocused,
            Event::Char('w') => Command::Save,
            Event::Char('q') => Command::SaveAndQuit,
            _ => Command::Forward,
        }
    }

    /// What a habit under the focus makes of an input: enter and `n` step
    /// today's record up, backspace and `p` step it down, and nothing else
    /// means anything to a habit.
    pub open spec fn step(self) -> Option<Step> {
        match self {
            Event::Key(Key::Enter) | Event::Char('n') => Some(Step::Up),
            Event::Key(Key::Backspace) | Event::Char('p') => Some(Step::Down),
            _ => None,
        }
    }

    /// Looks the input up in the key bindings.
    pub fn to_command(&self) -> (command: Command)
        ensures
            command == self.command(),
    {
        match self {
            Event::Key(Key::Right) | Event::Key(Key::Tab) | Event::Char('l') => Command::Focus(
                Direction::Right,
            ),
            Event::Key(Key::Left) | Event::Shift(Key::Tab) | Event::Char('h') => Command::Focus(
                Direction::Left,
            ),
            Event::Key(Key::Up) | Event::Char('k') => Command::Focus(Direction::Up),
            Event::Key(Key::Down) | Event::Char('j') => Command::Focus(Direction::Down),
            Event::Char('a') => Command::AddSample,
            Event::Char('d') => Command::RemoveFocused,
            Event::Char('w') => Command::Save,
            Event::Char('q') => Command::SaveAndQuit,
            _ => Command::Forward,
        }
    }

    /// The step that the input asks of a habit, if it asks for one.
    pub fn to_step(&self) -> (step: Option<Step>)
        ensures
            step == self.step(),
    {
        match self {
            Event::Key(Key::Enter) | Event::Char('n') => Some(Step::Up),
            Event::Key(Key::Backspace) | Event::Char('p') => Some(Step::Down),
            _ => None,
        }
    }
}

} // verus!
