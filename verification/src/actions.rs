use crate::direction::Direction;
use vstd::prelude::*;

verus! {

/// What an input mode prompts for.
#[derive(PartialEq, Eq, Clone, Copy, Debug)]
pub enum PromptMode {
    Command,
    Shell { pipe: bool },
    Search { escaped: bool, edit: bool },
}

/// The mode that decides what input means.
#[derive(PartialEq, Eq, Clone, Copy, Debug)]
pub enum InputMode {
    Prompt(PromptMode),
    Normal,
    Visual,
    Filter,
    Config,
}

impl InputMode {
    /// Whether the mode prompts for a search.
    pub fn is_prompt_search(&self) -> (r: bool)
        ensures
            r == (*self matches InputMode::Prompt(PromptMode::Search { .. })),
    {
        match self {
            InputMode::Prompt(PromptMode::Search { .. }) => true,
            _ => false,
        }
    }
}

/// How far a move goes.
#[derive(Clone, Copy, PartialEq, Eq, Debug)]
pub enum ViewDelta {
    Number(u16),
    Page,
    HalfPage,
    Boundary,
    Match,
}

/// How far a move of the command-line cursor goes: a word, to the end, or
/// by single characters.
#[derive(Clone, Copy, PartialEq, Eq, Debug)]
pub enum CommandJump {
    Word,
    Boundary,
    Single,
}

/// An action on the viewer in normal mode.
#[derive(Clone, Copy, PartialEq, Eq, Debug)]
pub enum NormalAction {
    PanVertical { direction: Direction, delta: ViewDelta, target_view: Option<usize> },
    PanHorizontal { direction: Direction, delta: ViewDelta, target_view: Option<usize> },
    FollowOutput,
    SwitchActive(Direction),
    SwitchActiveIndex { target_view: usize },
}

/// An action on the line selection in visual mode.
#[derive(Clone, Copy, PartialEq, Eq, Debug)]
pub enum VisualAction {
    Move { direction: Direction, select: bool, delta: ViewDelta },
    ToggleSelectedLine,
    ToggleLine { target_view: usize, line_number: usize },
}

/// An action on the filter list.
#[derive(Clone, Copy, PartialEq, Eq, Debug)]
pub enum FilterAction {
    Move { direction: Direction, select: bool, delta: ViewDelta },
    Displace { direction: Direction, delta: ViewDelta },
    ToggleSelectedFilter,
    RemoveSelectedFilter,
    ToggleSpecificFilter { target_view: usize, filter_index: usize },
}

/// An action on the saved filter list.
#[derive(Clone, Copy, PartialEq, Eq, Debug)]
pub enum ConfigAction {
    Move { direction: Direction, select: bool, delta: ViewDelta },
    LoadSelectedFilter,
    RemoveSelectedFilter,
}

/// An action on the command line.
#[derive(Clone, PartialEq, Eq, Debug)]
pub enum CommandAction {
    Move { direction: Direction, select: bool, jump: CommandJump },
    History { direction: Direction },
    Type { input: char },
    Paste { input: String },
    Backspace,
    Submit,
    Complete,
}

/// Anything the user can ask of the application.
#[derive(Clone, PartialEq, Eq, Debug)]
pub enum Action {
    Exit,
    SwitchMode(InputMode),
    Command(CommandAction),
    Normal(NormalAction),
    Visual(VisualAction),
    Filter(FilterAction),
    Config(ConfigAction),
    ExportFile(String),
}

/// Where the key bindings come from: built into the program.
#[derive(Clone, Copy, PartialEq, Eq, Debug, Structural)]
pub enum Keybinding {
    Hardcoded,
}

/// What switching from one input mode to another does besides setting the
/// new mode.
#[derive(Clone, Copy, PartialEq, Eq, Debug)]
pub enum ModeSwitch {
    /// Bring the selected line into view and stop following new output.
    EnterVisual,
    /// Load the pattern of the selected filter into the prompt for editing,
    /// or go back to the previous mode when there is none.
    LoadSelectedPattern,
    /// Empty the prompt.
    ClearPrompt,
    /// Nothing more.
    Keep,
}

/// Whether `m` prompts for a search whose pattern is being edited.
pub open spec fn is_search_edit(m: InputMode) -> bool {
    m matches InputMode::Prompt(PromptMode::Search { edit, .. }) && edit
}

/// What switching from `old` to `new` does: entering visual mode brings the
/// selection into view; entering the editing of a search pattern loads the
/// selected filter's pattern, unless it is being edited already; any other
/// switch empties the prompt, except one between two searches.
pub open spec fn mode_switch_spec(old: InputMode, new: InputMode) -> ModeSwitch {
    if new == InputMode::Visual {
        ModeSwitch::EnterVisual
    } else if is_search_edit(new) {
        if is_search_edit(old) {
            ModeSwitch::Keep
        } else {
            ModeSwitch::LoadSelectedPattern
        }
    } else if !(old matches InputMode::Prompt(PromptMode::Search { .. })) || !(new matches InputMode::Prompt(
        PromptMode::Search { .. },
    )) {
        ModeSwitch::ClearPrompt
    } else {
        ModeSwitch::Keep
    }
}

/// What switching from `old` to `new` does.
pub fn mode_switch(old: InputMode, new: InputMode) -> (r: ModeSwitch)
    ensures
        r == mode_switch_spec(old, new),
{
    match new {
        InputMode::Visual => ModeSwitch::EnterVisual,
        InputMode::Prompt(PromptMode::Search { edit: true, .. }) => {
            match old {
                InputMode::Prompt(PromptMode::Search { edit: true, .. }) => ModeSwitch::Keep,
                _ => ModeSwitch::LoadSelectedPattern,
            }
        },
        _ => {
            if !old.is_prompt_search() || !new.is_prompt_search() {
                ModeSwitch::ClearPrompt
            } else {
                ModeSwitch::Keep
            }
        },
    }
}

/// What submitting the prompt runs.
#[derive(Clone, Copy, PartialEq, Eq, Debug)]
pub enum Submission {
    /// The line is a command, and is kept in the prompt's history.
    Command,
    /// The line is a search pattern.
    Search { escaped: bool, edit: bool },
    /// The line is a shell command.
    Shell { pipe: bool },
}

/// What submitting the prompt in `mode`, a prompt mode, runs.
pub fn submission_of(mode: InputMode) -> (r: Submission)
    requires
        mode is Prompt,
    ensures
        mode == InputMode::Prompt(PromptMode::Command) ==> r == Submission::Command,
        mode matches InputMode::Prompt(PromptMode::Search { escaped, edit }) ==> r == (Submission::Search {
            escaped,
            edit,
        }),
        mode matches InputMode::Prompt(PromptMode::Shell { pipe }) ==> r == (Submission::Shell { pipe }),
{
    match mode {
        InputMode::Prompt(PromptMode::Command) => Submission::Command,
        InputMode::Prompt(PromptMode::Search { escaped, edit }) => Submission::Search { escaped, edit },
        InputMode::Prompt(PromptMode::Shell { pipe }) => Submission::Shell { pipe },
        _ => Submission::Command,
    }
}

} // verus!
