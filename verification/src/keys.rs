//! What the keys do in the terminal.

use crate::command::Command;
use vstd::prelude::*;

verus! {

/// What is done with a key.
#[derive(Clone, Copy, Debug, PartialEq, Eq)]
pub enum KeyKind {
    Press,
    Repeat,
    Release,
}

/// The keys that there is a use for.
#[derive(Clone, Copy, Debug, PartialEq, Eq)]
pub enum KeyCode {
    Esc,
    Left,
    Right,
    Char(char),
    /// Any other key.
    Other,
}

/// The modifier bit of the control key.
pub const CONTROL: u8 = 0b0000_0010;

/// A key, and what is done with it.
#[derive(Clone, Copy, Debug, PartialEq, Eq)]
pub struct KeyEvent {
    pub kind: KeyKind,
    pub code: KeyCode,
    /// One bit for each modifier that is held.
    pub modifiers: u8,
}

/// What is heard from the terminal and from the player.
#[derive(Clone, Copy, Debug, PartialEq, Eq)]
pub enum Heard {
    /// The player is done.
    Done,
    /// The terminal has no events any more.
    Ended,
    /// The terminal gave an error in place of an event.
    Failed,
    /// A key.
    Key(KeyEvent),
    /// Some other event of the terminal.
    Other,
}

/// What follows from it.
#[derive(Clone, Copy, Debug, PartialEq, Eq)]
pub enum Reaction {
    /// Listen on.
    Listen,
    /// Send this command to the player and listen on.
    Send(Command),
    /// Listen no more. `done` is whether the player is done.
    Stop { done: bool },
}

/// What a key asks for when it is pressed with these modifiers.
pub open spec fn pressed(code: KeyCode, modifiers: u8) -> Reaction {
    match code {
        KeyCode::Esc => Reaction::Stop { done: false },
        KeyCode::Left => if modifiers == CONTROL {
            Reaction::Send(Command::Prev)
        } else {
            Reaction::Listen
        },
        KeyCode::Right => if modifiers == CONTROL {
            Reaction::Send(Command::Next)
        } else {
            Reaction::Listen
        },
        KeyCode::Char(c) => if c == ' ' {
            Reaction::Send(Command::Pause)
        } else if c == '+' || c == '=' {
            Reaction::Send(Command::SpeedUp)
        } else if c == '-' {
            Reaction::Send(Command::SpeedDown)
        } else if modifiers == CONTROL && (c == 'c' || c == 'd' || c == 'q') {
            Reaction::Stop { done: false }
        } else {
            Reaction::Listen
        },
        KeyCode::Other => Reaction::Listen,
    }
}

/// What follows from what is heard. Keys count when they are pressed only.
pub open spec fn reaction(heard: Heard) -> Reaction {
    match heard {
        Heard::Done => Reaction::Stop { done: true },
        Heard::Ended => Reaction::Stop { done: false },
        Heard::Failed => Reaction::Stop { done: false },
        Heard::Key(key) => if key.kind == KeyKind::Press {
            pressed(key.code, key.modifiers)
        } else {
            Reaction::Listen
        },
        Heard::Other => Reaction::Listen,
    }
}

fn on_press(code: KeyCode, modifiers: u8) -> (next: Reaction)
    ensures
        next == pressed(code, modifiers),
{
    match code {
        KeyCode::Esc => Reaction::Stop { done: false },
        KeyCode::Char(c) if modifiers == CONTROL && (c == 'c' || c == 'd' || c == 'q') => {
            Reaction::Stop { done: false }
        },
        KeyCode::Left if modifiers == CONTROL => Reaction::Send(Command::Prev),
        KeyCode::Right if modifiers == CONTROL => Reaction::Send(Command::Next),
        KeyCode::Char(' ') => Reaction::Send(Command::Pause),
        KeyCode::Char('+' | '=') => Reaction::Send(Command::SpeedUp),
        KeyCode::Char('-') => Reaction::Send(Command::SpeedDown),
        _ => Reaction::Listen,
    }
}

/// Tells what follows from what is heard.
pub fn listen(heard: Heard) -> (next: Reaction)
    ensures
        next == reaction(heard),
{
    match heard {
        Heard::Done => Reaction::Stop { done: true },
        Heard::Ended => Reaction::Stop { done: false },
        Heard::Failed => Reaction::Stop { done: false },
        Heard::Key(key) => match key.kind {
            KeyKind::Press => on_press(key.code, key.modifiers),
            _ => Reaction::Listen,
        },
        Heard::Other => Reaction::Listen,
    }
}

/// Tells what follows once a command was sent: a player that does not take
/// commands any more is not listened for.
pub fn after_send(failed: bool) -> (next: Reaction)
    ensures
        next == if failed {
            Reaction::Stop { done: false }
        } else {
            Reaction::Listen
        },
{
    if failed {
        Reaction::Stop { done: false }
    } else {
        Reaction::Listen
    }
}

/// What is done when there is no more listening.
#[derive(Clone, Copy, Debug, PartialEq, Eq)]
pub enum Closing {
    /// Let the player know that no command will come any more.
    DropSender,
    /// Wait until the player is done.
    AwaitDone,
    /// Take the terminal out of raw mode.
    DisableRawMode,
    /// Go back to the screen that was there before.
    LeaveAlternateScreen,
    /// Undo the keyboard settings.
    PopKeyboardFlags,
    /// Leave the program.
    Exit,
}

/// What is done when there is no more listening, in this order. `done` is
/// whether the player was done, `alternate` whether there is another screen to
/// go back to.
pub open spec fn closing(done: bool, alternate: bool) -> Seq<Closing> {
    let player = if done {
        seq![]
    } else {
        seq![Closing::DropSender, Closing::AwaitDone]
    };
    let screen = if alternate {
        seq![Closing::LeaveAlternateScreen, Closing::PopKeyboardFlags]
    } else {
        seq![]
    };
    player + seq![Closing::DisableRawMode] + screen + seq![Closing::Exit]
}

/// Tells what is done when there is no more listening.
pub fn close(done: bool, alternate: bool) -> (what: Vec<Closing>)
    ensures
        what@ == closing(done, alternate),
{
    let mut what: Vec<Closing> = Vec::new();
    if !done {
        what.push(Closing::DropSender);
        what.push(Closing::AwaitDone);
    }
    what.push(Closing::DisableRawMode);
    if alternate {
        what.push(Closing::LeaveAlternateScreen);
        what.push(Closing::PopKeyboardFlags);
    }
    what.push(Closing::Exit);
    assert(what@ =~= closing(done, alternate));
    what
}

/// The keys do what the header says: the spacebar pauses and goes on,
/// ctrl-left and ctrl-right change the track, plus and minus change the speed,
/// and esc and ctrl-c end it.
pub proof fn keys_do_what_the_header_says(modifiers: u8)
    ensures
        pressed(KeyCode::Char(' '), modifiers) == Reaction::Send(Command::Pause),
        pressed(KeyCode::Left, CONTROL) == Reaction::Send(Command::Prev),
        pressed(KeyCode::Right, CONTROL) == Reaction::Send(Command::Next),
        pressed(KeyCode::Char('+'), modifiers) == Reaction::Send(Command::SpeedUp),
        pressed(KeyCode::Char('-'), modifiers) == Reaction::Send(Command::SpeedDown),
        pressed(KeyCode::Esc, modifiers) == (Reaction::Stop { done: false }),
        pressed(KeyCode::Char('c'), CONTROL) == (Reaction::Stop { done: false }),
{
}

/// A key acts once: holding it down and letting it go do nothing.
pub proof fn keys_act_when_pressed(key: KeyEvent)
    requires
        key.kind != KeyKind::Press,
    ensures
        reaction(Heard::Key(key)) == Reaction::Listen,
{
}

/// The terminal is always put back in order, and leaving comes last.
pub proof fn closing_tidies_up(done: bool, alternate: bool)
    ensures
        closing(done, alternate).contains(Closing::DisableRawMode),
        alternate ==> closing(done, alternate).contains(Closing::LeaveAlternateScreen),
        closing(done, alternate).last() == Closing::Exit,
{
    let what = closing(done, alternate);
    let at: int = if done {
        0
    } else {
        2
    };
    assert(what[at] == Closing::DisableRawMode);
    if alternate {
        assert(what[at + 1] == Closing::LeaveAlternateScreen);
    }
}

/// Each use has its keys and no others: what a key that is pressed asks for says
/// which key it was.
pub proof fn every_use_has_its_keys(code: KeyCode, modifiers: u8)
    ensures
        ({
            let asked = pressed(code, modifiers);
            let control = modifiers == 2;
            &&& asked == Reaction::Send(Command::Pause) <==> code == KeyCode::Char(' ')
            &&& asked == Reaction::Send(Command::Prev) <==> code == KeyCode::Left && control
            &&& asked == Reaction::Send(Command::Next) <==> code == KeyCode::Right && control
            &&& asked == Reaction::Send(Command::SpeedUp) <==> code == KeyCode::Char('+') || code
                == KeyCode::Char('=')
            &&& asked == Reaction::Send(Command::SpeedDown) <==> code == KeyCode::Char('-')
            &&& asked == (Reaction::Stop { done: false }) <==> code == KeyCode::Esc || (control && (
            code == KeyCode::Char('c') || code == KeyCode::Char('d') || code == KeyCode::Char(
                'q',
            )))
            &&& asked is Send ==> !(asked->Send_0 is SetSpeed)
            &&& asked is Stop ==> !asked->done
        }),
{
}

/// Listening ends when the player is done, when the terminal has no events any
/// more or fails, and when a key asks for it, and only then. That the player is
/// done is remembered.
pub proof fn listening_ends_in_time(heard: Heard)
    ensures
        reaction(heard) == (Reaction::Stop { done: true }) <==> heard is Done,
        heard is Ended || heard is Failed ==> reaction(heard) == (Reaction::Stop { done: false }),
        heard is Other ==> reaction(heard) == Reaction::Listen,
        heard matches Heard::Key(key) ==> reaction(heard) == if key.kind == KeyKind::Press {
            pressed(key.code, key.modifiers)
        } else {
            Reaction::Listen
        },
{
}

/// A player that is not done is told that no command will come any more, and
/// waited for, before anything else. Then the terminal leaves raw mode, and the
/// screen and the keyboard are put back if they had been changed. Leaving the
/// program comes last, and nothing is done twice.
pub proof fn closing_goes_in_order(done: bool, alternate: bool)
    ensures
        ({
            let what = closing(done, alternate);
            let at: int = if done {
                0
            } else {
                2
            };
            &&& !done ==> what[0] == Closing::DropSender && what[1] == Closing::AwaitDone
            &&& what[at] == Closing::DisableRawMode
            &&& alternate ==> what[at + 1] == Closing::LeaveAlternateScreen && what[at + 2]
                == Closing::PopKeyboardFlags && what[at + 3] == Closing::Exit && what.len() == at
                + 4
            &&& !alternate ==> what[at + 1] == Closing::Exit && what.len() == at + 2
        }),
{
}

} // verus!
