use vstd::prelude::*;

use crate::actions::{
    Action, CommandAction, CommandJump, FilterAction, InputMode, Keybinding, NormalAction, PromptMode,
    ViewDelta, VisualAction,
};
use crate::direction::Direction;

verus! {

/// A key of the keyboard.
#[derive(Clone, Copy, PartialEq, Eq, Debug, Structural)]
pub enum Key {
    Char(char),
    Enter,
    Esc,
    Backspace,
    Delete,
    Tab,
    BackTab,
    Up,
    Down,
    Left,
    Right,
    Home,
    End,
    PageUp,
    PageDown,
}

/// A key event: the key, the modifiers held, and whether the key went
/// down (rather than up or repeating).
#[derive(Clone, Copy, PartialEq, Eq, Debug, Structural)]
pub struct KeyInput {
    pub key: Key,
    pub ctrl: bool,
    pub alt: bool,
    pub shift: bool,
    pub press: bool,
}

/// An input event: a key, pasted text, a turn of the mouse wheel, or
/// anything else.
#[derive(Clone, PartialEq, Eq, Debug)]
pub enum InputEvent {
    Key(KeyInput),
    Paste(String),
    /// The wheel turned up (`Back`) or down (`Next`).
    Scroll(Direction),
    Other,
}

/// `Back` for the first of a pair of keys, `Next` for the second.
pub open spec fn back_when(first: bool) -> Direction {
    if first {
        Direction::Back
    } else {
        Direction::Next
    }
}

/// How far the vertical keys `k` move in a list, where `shift_half`
/// tells whether a shifted arrow moves half a page; `None` for the other
/// keys.
pub open spec fn vertical_move(k: KeyInput, shift_half: bool) -> Option<(Direction, ViewDelta)> {
    match k.key {
        Key::Up | Key::Down => Some(
            (
                back_when(k.key == Key::Up),
                if shift_half && k.shift {
                    ViewDelta::HalfPage
                } else {
                    ViewDelta::Number(1)
                },
            ),
        ),
        Key::Home | Key::End => Some((back_when(k.key == Key::Home), ViewDelta::Boundary)),
        Key::PageUp | Key::PageDown => Some((back_when(k.key == Key::PageUp), ViewDelta::Page)),
        Key::Char(c) => if c == 'u' || c == 'd' {
            Some((back_when(c == 'u'), ViewDelta::HalfPage))
        } else {
            None
        },
        _ => None,
    }
}

/// The command-line move that the key `k` asks for, if any.
pub open spec fn prompt_move(k: KeyInput) -> Option<(Direction, CommandJump)> {
    match k.key {
        Key::Left | Key::Right => Some(
            (
                back_when(k.key == Key::Left),
                if k.alt {
                    CommandJump::Word
                } else {
                    CommandJump::Single
                },
            ),
        ),
        Key::Home | Key::End => Some((back_when(k.key == Key::Home), CommandJump::Boundary)),
        Key::Char(c) => if (c == 'b' || c == 'f') && k.alt {
            Some((back_when(c == 'b'), CommandJump::Word))
        } else if (c == 'a' || c == 'e') && k.ctrl {
            Some((back_when(c == 'a'), CommandJump::Boundary))
        } else {
            None
        },
        _ => None,
    }
}

/// The action the event `e` asks for in the mode `mode`, by the bindings
/// of that mode.
pub open spec fn dependent_bind(mode: InputMode, e: InputEvent) -> Option<Action> {
    match mode {
        InputMode::Normal => match e {
            InputEvent::Key(k) => match vertical_move(k, true) {
                Some((direction, delta)) => Some(
                    Action::Normal(NormalAction::PanVertical { direction, delta, target_view: None }),
                ),
                None => None,
            },
            _ => None,
        },
        InputMode::Filter => match e {
            InputEvent::Key(k) => match vertical_move(k, false) {
                Some((direction, delta)) => Some(
                    Action::Filter(FilterAction::Move { direction, select: false, delta }),
                ),
                None => if k.key == Key::Char(' ') || k.key == Key::Enter {
                    Some(Action::Filter(FilterAction::ToggleSelectedFilter))
                } else if k.key == Key::Backspace {
                    Some(Action::Filter(FilterAction::RemoveSelectedFilter))
                } else {
                    None
                },
            },
            _ => None,
        },
        InputMode::Visual => match e {
            InputEvent::Scroll(direction) => Some(
                Action::Visual(VisualAction::Move { direction, select: false, delta: ViewDelta::Number(1) }),
            ),
            InputEvent::Key(k) => if k.key == Key::Up || k.key == Key::Down {
                Some(
                    Action::Visual(
                        VisualAction::Move {
                            direction: back_when(k.key == Key::Up),
                            select: false,
                            delta: ViewDelta::Number(1),
                        },
                    ),
                )
            } else if k.key == Key::Char(' ') || k.key == Key::Enter {
                Some(Action::Visual(VisualAction::ToggleSelectedLine))
            } else {
                None
            },
            _ => None,
        },
        InputMode::Prompt(_) => match e {
            InputEvent::Paste(text) => Some(Action::Command(CommandAction::Paste { input: text })),
            InputEvent::Key(k) => if k.key == Key::Enter {
                Some(Action::Command(CommandAction::Submit))
            } else if k.key == Key::Backspace {
                Some(Action::Command(CommandAction::Backspace))
            } else {
                match prompt_move(k) {
                    Some((direction, jump)) => Some(
                        Action::Command(CommandAction::Move { direction, select: k.shift, jump }),
                    ),
                    None => match k.key {
                        Key::Char(c) => Some(Action::Command(CommandAction::Type { input: c })),
                        _ => None,
                    },
                }
            },
            _ => None,
        },
        InputMode::Config => None,
    }
}

/// The action the event `e` asks for in any mode: switching modes, or
/// switching the active buffer with a shifted arrow.
pub open spec fn independent_bind(e: InputEvent) -> Option<Action> {
    match e {
        InputEvent::Key(k) => match k.key {
            Key::Char(c) => if c == ':' {
                Some(Action::SwitchMode(InputMode::Prompt(PromptMode::Command)))
            } else if c == 'i' {
                Some(Action::SwitchMode(InputMode::Visual))
            } else {
                None
            },
            Key::Tab => Some(Action::SwitchMode(InputMode::Filter)),
            Key::Esc => Some(Action::SwitchMode(InputMode::Normal)),
            Key::Left | Key::Right => if k.shift {
                Some(Action::Normal(NormalAction::SwitchActive(back_when(k.key == Key::Left))))
            } else {
                None
            },
            _ => None,
        },
        _ => None,
    }
}

/// The action the event `e` asks for in the mode `mode`: none for a key
/// that is not going down; else the binding of the mode, or failing that
/// the binding of every mode.
pub open spec fn native_bind(mode: InputMode, e: InputEvent) -> Option<Action> {
    if e matches InputEvent::Key(k) && !k.press {
        None
    } else {
        match dependent_bind(mode, e) {
            Some(a) => Some(a),
            None => independent_bind(e),
        }
    }
}

/// `Back` for the first of a pair of keys, `Next` for the second.
fn back_if(first: bool) -> (d: Direction)
    ensures
        d == back_when(first),
{
    if first {
        Direction::Back
    } else {
        Direction::Next
    }
}

/// How far the vertical key `k` moves in a list.
fn vertical_move_of(k: KeyInput, shift_half: bool) -> (r: Option<(Direction, ViewDelta)>)
    ensures
        r == vertical_move(k, shift_half),
{
    match k.key {
        Key::Up | Key::Down => Some(
            (
                back_if(k.key == Key::Up),
                if shift_half && k.shift {
                    ViewDelta::HalfPage
                } else {
                    ViewDelta::Number(1)
                },
            ),
        ),
        Key::Home | Key::End => Some((back_if(k.key == Key::Home), ViewDelta::Boundary)),
        Key::PageUp | Key::PageDown => Some((back_if(k.key == Key::PageUp), ViewDelta::Page)),
        Key::Char(c) => if c == 'u' || c == 'd' {
            Some((back_if(c == 'u'), ViewDelta::HalfPage))
        } else {
            None
        },
        _ => None,
    }
}

/// The command-line move that the key `k` asks for.
fn prompt_move_of(k: KeyInput) -> (r: Option<(Direction, CommandJump)>)
    ensures
        r == prompt_move(k),
{
    match k.key {
        Key::Left | Key::Right => Some(
            (
                back_if(k.key == Key::Left),
                if k.alt {
                    CommandJump::Word
                } else {
                    CommandJump::Single
                },
            ),
        ),
        Key::Home | Key::End => Some((back_if(k.key == Key::Home), CommandJump::Boundary)),
        Key::Char(c) => if (c == 'b' || c == 'f') && k.alt {
            Some((back_if(c == 'b'), CommandJump::Word))
        } else if (c == 'a' || c == 'e') && k.ctrl {
            Some((back_if(c == 'a'), CommandJump::Boundary))
        } else {
            None
        },
        _ => None,
    }
}

impl Keybinding {
    /// The action the event `event` asks for in the mode `input_mode`.
    pub fn map_key(&self, input_mode: InputMode, event: InputEvent) -> (r: Option<Action>)
        ensures
            r == native_bind(input_mode, event),
    {
        match self {
            Keybinding::Hardcoded => Self::native_keys(input_mode, event),
        }
    }

    /// The built-in bindings: none for a key that is not going down, else
    /// those of the mode, then those of every mode.
    pub fn native_keys(input_mode: InputMode, event: InputEvent) -> (r: Option<Action>)
        ensures
            r == native_bind(input_mode, event),
    {
        let key = match &event {
            InputEvent::Key(k) => Some(*k),
            _ => None,
        };
        if let Some(k) = key {
            if !k.press {
                return None;
            }
        }
        match Self::mode_dependent_bind(input_mode, event) {
            Some(a) => Some(a),
            None => {
                let again = match key {
                    Some(k) => InputEvent::Key(k),
                    None => InputEvent::Other,
                };
                Self::mode_independent_bind(input_mode, again)
            },
        }
    }

    /// The bindings of the mode `input_mode`.
    pub fn mode_dependent_bind(input_mode: InputMode, event: InputEvent) -> (r: Option<Action>)
        ensures
            r == dependent_bind(input_mode, event),
    {
        match input_mode {
            InputMode::Normal => match event {
                InputEvent::Key(k) => match vertical_move_of(k, true) {
                    Some((direction, delta)) => Some(
                        Action::Normal(NormalAction::PanVertical { direction, delta, target_view: None }),
                    ),
                    None => None,
                },
                _ => None,
            },
            InputMode::Filter => match event {
                InputEvent::Key(k) => match vertical_move_of(k, false) {
                    Some((direction, delta)) => Some(
                        Action::Filter(FilterAction::Move { direction, select: false, delta }),
                    ),
                    None => if k.key == Key::Char(' ') || k.key == Key::Enter {
                        Some(Action::Filter(FilterAction::ToggleSelectedFilter))
                    } else if k.key == Key::Backspace {
                        Some(Action::Filter(FilterAction::RemoveSelectedFilter))
                    } else {
                        None
                    },
                },
                _ => None,
            },
            InputMode::Visual => match event {
                InputEvent::Scroll(direction) => Some(
                    Action::Visual(
                        VisualAction::Move { direction, select: false, delta: ViewDelta::Number(1) },
                    ),
                ),
                InputEvent::Key(k) => if k.key == Key::Up || k.key == Key::Down {
                    Some(
                        Action::Visual(
                            VisualAction::Move {
                                direction: back_if(k.key == Key::Up),
                                select: false,
                                delta: ViewDelta::Number(1),
                            },
                        ),
                    )
                } else if k.key == Key::Char(' ') || k.key == Key::Enter {
                    Some(Action::Visual(VisualAction::ToggleSelectedLine))
                } else {
                    None
                },
                _ => None,
            },
            InputMode::Prompt(_) => match event {
                InputEvent::Paste(text) => Some(Action::Command(CommandAction::Paste { input: text })),
                InputEvent::Key(k) => if k.key == Key::Enter {
                    Some(Action::Command(CommandAction::Submit))
                } else if k.key == Key::Backspace {
                    Some(Action::Command(CommandAction::Backspace))
                } else {
                    match prompt_move_of(k) {
                        Some((direction, jump)) => Some(
                            Action::Command(CommandAction::Move { direction, select: k.shift, jump }),
                        ),
                        None => match k.key {
                            Key::Char(c) => Some(Action::Command(CommandAction::Type { input: c })),
                            _ => None,
                        },
                    }
                },
                _ => None,
            },
            InputMode::Config => None,
        }
    }

    /// The bindings of every mode.
    pub fn mode_independent_bind(input_mode: InputMode, event: InputEvent) -> (r: Option<Action>)
        ensures
            r == independent_bind(event),
    {
        match event {
            InputEvent::Key(k) => match k.key {
                Key::Char(c) => if c == ':' {
                    Some(Action::SwitchMode(InputMode::Prompt(PromptMode::Command)))
                } else if c == 'i' {
                    Some(Action::SwitchMode(InputMode::Visual))
                } else {
                    None
                },
                Key::Tab => Some(Action::SwitchMode(InputMode::Filter)),
                Key::Esc => Some(Action::SwitchMode(InputMode::Normal)),
                Key::Left | Key::Right => if k.shift {
                    Some(Action::Normal(NormalAction::SwitchActive(back_if(k.key == Key::Left))))
                } else {
                    None
                },
                _ => None,
            },
            _ => None,
        }
    }
}

/// The direction of the vertical move that action `a` asks for, if it is
/// one.
pub open spec fn move_direction(a: Action) -> Option<Direction> {
    match a {
        Action::Normal(NormalAction::PanVertical { direction, .. }) => Some(direction),
        Action::Filter(FilterAction::Move { direction, .. }) => Some(direction),
        Action::Visual(VisualAction::Move { direction, .. }) => Some(direction),
        _ => None,
    }
}

/// In every mode that moves through lines or filters by the arrow keys,
/// a pressed Up moves back (towards the start) and a pressed Down moves
/// forward, whatever modifiers are held; in normal and filter modes the
/// same holds of Page Up, Home and `u` against Page Down, End and `d`.
pub proof fn law_up_is_back_down_is_next(mode: InputMode, k: KeyInput)
    requires
        mode == InputMode::Normal || mode == InputMode::Filter || mode == InputMode::Visual,
        k.press,
    ensures
        k.key == Key::Up ==> (native_bind(mode, InputEvent::Key(k)) matches Some(a) && move_direction(a) == Some(
            Direction::Back,
        )),
        k.key == Key::Down ==> (native_bind(mode, InputEvent::Key(k)) matches Some(a) && move_direction(a) == Some(
            Direction::Next,
        )),
        mode != InputMode::Visual && (k.key == Key::PageUp || k.key == Key::Home || k.key == Key::Char('u'))
            ==> (native_bind(mode, InputEvent::Key(k)) matches Some(a) && move_direction(a) == Some(Direction::Back)),
        mode != InputMode::Visual && (k.key == Key::PageDown || k.key == Key::End || k.key == Key::Char('d'))
            ==> (native_bind(mode, InputEvent::Key(k)) matches Some(a) && move_direction(a) == Some(Direction::Next)),
{
}

} // verus!
