use bvr::actions::{mode_switch, submission_of, InputMode, ModeSwitch, PromptMode, Submission};

#[test]
fn mode_switches() {
    let search_edit = InputMode::Prompt(PromptMode::Search { escaped: false, edit: true });
    let search = InputMode::Prompt(PromptMode::Search { escaped: true, edit: false });
    assert_eq!(mode_switch(InputMode::Normal, InputMode::Visual), ModeSwitch::EnterVisual);
    assert_eq!(mode_switch(InputMode::Normal, search_edit), ModeSwitch::LoadSelectedPattern);
    assert_eq!(mode_switch(search_edit, search_edit), ModeSwitch::Keep);
    assert_eq!(mode_switch(search, search_edit), ModeSwitch::LoadSelectedPattern);
    assert_eq!(mode_switch(search_edit, search), ModeSwitch::Keep);
    assert_eq!(mode_switch(search, InputMode::Normal), ModeSwitch::ClearPrompt);
    assert_eq!(
        mode_switch(InputMode::Normal, InputMode::Prompt(PromptMode::Command)),
        ModeSwitch::ClearPrompt
    );
    assert!(search.is_prompt_search());
    assert!(!InputMode::Filter.is_prompt_search());
}

#[test]
fn submissions() {
    assert_eq!(submission_of(InputMode::Prompt(PromptMode::Command)), Submission::Command);
    assert_eq!(
        submission_of(InputMode::Prompt(PromptMode::Shell { pipe: true })),
        Submission::Shell { pipe: true }
    );
    assert_eq!(
        submission_of(InputMode::Prompt(PromptMode::Search { escaped: true, edit: false })),
        Submission::Search { escaped: true, edit: false }
    );
}
