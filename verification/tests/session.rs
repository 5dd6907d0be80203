use bvr::actions::{
    Action, CommandAction, CommandJump, ConfigAction, FilterAction, InputMode, Keybinding, NormalAction,
    PromptMode, ViewDelta, VisualAction,
};
use bvr::buffer::SegBuffer;
use bvr::colors::{Color, ColorSelector};
use bvr::commands::parse_command;
use bvr::cursor::Cursor;
use bvr::direction::Direction;
use bvr::indexset::BTreeSet;
use bvr::instance::Instance;
use bvr::keys::{InputEvent, Key, KeyInput};

use bvr::mux::MultiplexerMode;
use bvr::session::{Effect, Viewer};
use bvr::status::StatusApp;

fn key(k: Key) -> InputEvent {
    InputEvent::Key(KeyInput { key: k, ctrl: false, alt: false, shift: false, press: true })
}

fn viewer(files: &[&[u8]]) -> Viewer {
    let mut v = Viewer::new(ColorSelector::new(false, true));
    for (i, data) in files.iter().enumerate() {
        v.push_instance(Instance::new(format!("f{i}"), SegBuffer::from_bytes(data)));
    }
    v
}

fn type_line(v: &mut Viewer, text: &str) -> Effect {
    let keys = Keybinding::Hardcoded;
    let mut last = Effect::Stay;
    let mut events: Vec<InputEvent> = text.chars().map(|c| key(Key::Char(c))).collect();
    events.push(key(Key::Enter));
    for e in events {
        if let Some(a) = keys.map_key(v.mode, e) {
            last = v.process_action(a);
        }
    }
    last
}

#[test]
fn keys_of_normal_mode_pan_the_view() {
    let keys = Keybinding::Hardcoded;
    assert_eq!(
        keys.map_key(InputMode::Normal, key(Key::Down)),
        Some(Action::Normal(NormalAction::PanVertical {
            direction: Direction::Next,
            delta: ViewDelta::Number(1),
            target_view: None
        }))
    );
    let shifted = InputEvent::Key(KeyInput { key: Key::Up, ctrl: false, alt: false, shift: true, press: true });
    assert_eq!(
        keys.map_key(InputMode::Normal, shifted),
        Some(Action::Normal(NormalAction::PanVertical {
            direction: Direction::Back,
            delta: ViewDelta::HalfPage,
            target_view: None
        }))
    );
    assert_eq!(
        keys.map_key(InputMode::Normal, key(Key::PageDown)),
        Some(Action::Normal(NormalAction::PanVertical {
            direction: Direction::Next,
            delta: ViewDelta::Page,
            target_view: None
        }))
    );
    assert_eq!(keys.map_key(InputMode::Normal, key(Key::Char('x'))), None);
}

#[test]
fn keys_switch_modes_everywhere_but_the_prompt() {
    let keys = Keybinding::Hardcoded;
    assert_eq!(
        keys.map_key(InputMode::Normal, key(Key::Char(':'))),
        Some(Action::SwitchMode(InputMode::Prompt(PromptMode::Command)))
    );
    assert_eq!(keys.map_key(InputMode::Filter, key(Key::Esc)), Some(Action::SwitchMode(InputMode::Normal)));
    assert_eq!(keys.map_key(InputMode::Normal, key(Key::Tab)), Some(Action::SwitchMode(InputMode::Filter)));
    assert_eq!(keys.map_key(InputMode::Normal, key(Key::Char('i'))), Some(Action::SwitchMode(InputMode::Visual)));
    assert_eq!(
        keys.map_key(InputMode::Prompt(PromptMode::Command), key(Key::Char(':'))),
        Some(Action::Command(CommandAction::Type { input: ':' }))
    );
    let released = InputEvent::Key(KeyInput { key: Key::Char(':'), ctrl: false, alt: false, shift: false, press: false });
    assert_eq!(keys.map_key(InputMode::Normal, released), None);
}

#[test]
fn keys_of_the_prompt_edit_the_line() {
    let keys = Keybinding::Hardcoded;
    let mode = InputMode::Prompt(PromptMode::Command);
    let alt_b = InputEvent::Key(KeyInput { key: Key::Char('b'), ctrl: false, alt: true, shift: false, press: true });
    assert_eq!(
        keys.map_key(mode, alt_b),
        Some(Action::Command(CommandAction::Move { direction: Direction::Back, select: false, jump: CommandJump::Word }))
    );
    let ctrl_e = InputEvent::Key(KeyInput { key: Key::Char('e'), ctrl: true, alt: false, shift: true, press: true });
    assert_eq!(
        keys.map_key(mode, ctrl_e),
        Some(Action::Command(CommandAction::Move {
            direction: Direction::Next,
            select: true,
            jump: CommandJump::Boundary
        }))
    );
    assert_eq!(keys.map_key(mode, key(Key::Enter)), Some(Action::Command(CommandAction::Submit)));
    assert_eq!(
        keys.map_key(mode, InputEvent::Paste("abc".to_string())),
        Some(Action::Command(CommandAction::Paste { input: "abc".to_string() }))
    );
}

#[test]
fn keys_of_filter_and_visual_modes() {
    let keys = Keybinding::Hardcoded;
    assert_eq!(
        keys.map_key(InputMode::Filter, key(Key::Char('d'))),
        Some(Action::Filter(FilterAction::Move { direction: Direction::Next, select: false, delta: ViewDelta::HalfPage }))
    );
    assert_eq!(keys.map_key(InputMode::Filter, key(Key::Enter)), Some(Action::Filter(FilterAction::ToggleSelectedFilter)));
    assert_eq!(keys.map_key(InputMode::Filter, key(Key::Backspace)), Some(Action::Filter(FilterAction::RemoveSelectedFilter)));
    assert_eq!(keys.map_key(InputMode::Visual, key(Key::Char(' '))), Some(Action::Visual(VisualAction::ToggleSelectedLine)));
    assert_eq!(
        keys.map_key(InputMode::Visual, InputEvent::Scroll(Direction::Back)),
        Some(Action::Visual(VisualAction::Move { direction: Direction::Back, select: false, delta: ViewDelta::Number(1) }))
    );
    assert_eq!(keys.map_key(InputMode::Config, key(Key::Down)), None);
}

#[test]
fn a_typed_command_quits() {
    let mut v = viewer(&[b"a\n"]);
    assert!(matches!(type_line(&mut v, ":q"), Effect::Quit));
}

#[test]
fn a_typed_search_adds_a_filter_and_leaves_the_prompt() {
    let mut v = viewer(&[b"apple\nbanana\n"]);
    v.process_action(Action::SwitchMode(InputMode::Prompt(PromptMode::Search { escaped: false, edit: false })));
    assert!(matches!(type_line(&mut v, "an"), Effect::Stay));
    assert_eq!(v.mode, InputMode::Normal);
    let filters = v.mux.instances()[0].compositor().filters();
    assert_eq!(filters.len(), 3);
    assert_eq!(filters.get(2).unwrap().mask(), "an");
    assert_eq!(*filters.get(2).unwrap().color(), Color::Indexed(9));
}

#[test]
fn a_bad_search_is_reported() {
    let mut v = viewer(&[b"apple\n"]);
    v.process_action(Action::SwitchMode(InputMode::Prompt(PromptMode::Search { escaped: false, edit: false })));
    type_line(&mut v, "(");
    assert_eq!(v.status.message_update(false), Some("(: invalid pattern".to_string()));
    assert_eq!(v.mux.instances()[0].compositor().filters().len(), 2);
}

#[test]
fn a_shell_line_is_handed_to_the_front_end() {
    let mut v = viewer(&[b"a\n"]);
    v.process_action(Action::SwitchMode(InputMode::Prompt(PromptMode::Shell { pipe: true })));
    match type_line(&mut v, "wc -l") {
        Effect::Shell { command, pipe } => {
            assert_eq!(command, "wc -l");
            assert!(pipe);
        }
        _ => panic!("expected a shell command"),
    }
    assert_eq!(v.mode, InputMode::Normal);
}

#[test]
fn backspace_on_an_empty_prompt_leaves_it() {
    let mut v = viewer(&[]);
    v.process_action(Action::SwitchMode(InputMode::Prompt(PromptMode::Command)));
    v.process_action(Action::Command(CommandAction::Type { input: 'x' }));
    v.process_action(Action::Command(CommandAction::Backspace));
    assert_eq!(v.mode, InputMode::Prompt(PromptMode::Command));
    v.process_action(Action::Command(CommandAction::Backspace));
    assert_eq!(v.mode, InputMode::Normal);
}

#[test]
fn commands_close_toggle_and_report() {
    let mut v = viewer(&[b"a\n", b"b\n"]);
    assert!(matches!(v.apply_command(parse_command("gutter")), Effect::Stay));
    assert!(v.gutter);
    v.apply_command(parse_command("mux split"));
    assert_eq!(v.mux.mode(), MultiplexerMode::Panes);
    v.apply_command(parse_command("mux bogus"));
    assert_eq!(
        v.status.message_update(false),
        Some("mux bogus: invalid style, one of `tabs`, `split`".to_string())
    );
    v.apply_command(parse_command("frobnicate"));
    assert_eq!(v.status.message_update(false), Some("frobnicate: Invalid command".to_string()));
    assert!(matches!(v.apply_command(parse_command("close")), Effect::Closed(0)));
    assert_eq!(v.mux.len(), 1);
    v.apply_command(parse_command("close"));
    v.apply_command(parse_command("close"));
    assert_eq!(v.status.message_update(false), Some("No active instances".to_string()));
}

#[test]
fn filter_commands_copy_link_and_compose() {
    let mut v = viewer(&[b"pear\nplum\n", b"peach\nfig\n"]);
    v.process_action(Action::SwitchMode(InputMode::Prompt(PromptMode::Search { escaped: false, edit: false })));
    type_line(&mut v, "pe");
    v.apply_command(parse_command("filter copy 1"));
    assert_eq!(v.status.message_update(false), Some("filter export: cannot export to active instance".to_string()));
    assert!(matches!(v.apply_command(parse_command("filter copy 9")), Effect::InvalidTarget(8)));
    v.apply_command(parse_command("filter copy 2"));
    let other = v.mux.instances()[1].compositor().filters();
    assert_eq!(other.len(), 3);
    assert_eq!(other.get(2).unwrap().mask(), "pe");
    v.apply_command(parse_command("filter link"));
    assert!(v.linked_filters);
    v.apply_command(parse_command("filter intersect"));
    v.apply_command(parse_command("filter load"));
    assert_eq!(v.mode, InputMode::Config);
    assert!(matches!(v.process_action(Action::Config(ConfigAction::LoadSelectedFilter)), Effect::Config(_)));
    v.apply_command(parse_command("filter persist"));
    assert_eq!(v.status.message_update(false), Some("filter persist: persistence = true".to_string()));
}

#[test]
fn visual_moves_select_and_bookmark() {
    let mut v = viewer(&[b"a\nb\nc\n"]);
    v.mux.instances_mut()[0].update_and_view(5, 80);
    v.process_action(Action::SwitchMode(InputMode::Visual));
    v.process_action(Action::Visual(VisualAction::Move {
        direction: Direction::Next,
        select: false,
        delta: ViewDelta::Number(1),
    }));
    assert_eq!(v.mux.instances()[0].cursor(), Cursor::Singleton(1));
    assert!(!v.mux.instances()[0].is_following_output());
    v.process_action(Action::Visual(VisualAction::ToggleSelectedLine));
    assert_eq!(v.mux.instances()[0].compositor().filters().bookmarks().to_vec(), vec![1]);
}

#[test]
fn export_without_a_buffer_is_reported() {
    let mut v = viewer(&[]);
    assert!(matches!(v.process_action(Action::ExportFile("out".to_string())), Effect::Stay));
    assert_eq!(v.status.message_update(false), Some("No active instances".to_string()));
    let mut w = viewer(&[b"a\n"]);
    assert!(matches!(w.process_action(Action::ExportFile("out".to_string())), Effect::ExportFile(_)));
}

#[test]
fn the_active_buffer_switches() {
    let mut v = viewer(&[b"a\n", b"b\n", b"c\n"]);
    v.process_action(Action::Normal(NormalAction::SwitchActive(Direction::Next)));
    assert_eq!(v.mux.active_index(), 1);
    v.process_action(Action::Normal(NormalAction::SwitchActiveIndex { target_view: 9 }));
    assert_eq!(v.mux.active_index(), 2);
}

#[test]
fn status_messages_last_two_seconds() {
    let mut s = StatusApp::new();
    s.submit_message("x".to_string());
    assert_eq!(s.message_update(false), Some("x".to_string()));
    s.submit_message_with_duration("y".to_string(), Some(60_000));
    assert_eq!(s.get_message_update(), Some("y".to_string()));
}

#[test]
fn inserts_come_out_sorted_without_repeats() {
    let mut set = BTreeSet::new();
    for x in [5usize, 1, 9, 5, 3, 1] {
        set.insert(x);
    }
    assert_eq!(set.len(), 4);
    let items: Vec<Option<usize>> = (0..5).map(|i| set.get_index(i)).collect();
    assert_eq!(items, vec![Some(1), Some(3), Some(5), Some(9), None]);
}

#[test]
fn prompt_moves_stay_on_character_boundaries() {
    let mut v = viewer(&[]);
    v.process_action(Action::SwitchMode(InputMode::Prompt(PromptMode::Command)));
    v.process_action(Action::Command(CommandAction::Paste { input: "héllo".to_string() }));
    assert_eq!(v.prompt.cursor(), Cursor::Singleton(6));
    v.process_action(Action::Command(CommandAction::Move {
        direction: Direction::Back,
        select: false,
        jump: CommandJump::Single,
    }));
    assert_eq!(v.prompt.cursor(), Cursor::Singleton(5));
    for _ in 0..4 {
        v.process_action(Action::Command(CommandAction::Move {
            direction: Direction::Back,
            select: false,
            jump: CommandJump::Single,
        }));
    }
    assert_eq!(v.prompt.cursor(), Cursor::Singleton(0));
}
