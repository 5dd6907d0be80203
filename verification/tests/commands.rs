use bvr::commands::{parse_command, parse_usize, Command, FilterCommand, IndexArg, MuxCommand};

fn chars(s: &str) -> Vec<char> {
    s.chars().collect()
}

#[test]
fn parse_usize_accepts_digits_and_plus() {
    assert_eq!(parse_usize(&chars("42")), Some(42));
    assert_eq!(parse_usize(&chars("+7")), Some(7));
    assert_eq!(parse_usize(&chars("0")), Some(0));
    assert_eq!(parse_usize(&chars(&usize::MAX.to_string())), Some(usize::MAX));
}

#[test]
fn parse_usize_rejects_other_text() {
    assert_eq!(parse_usize(&chars("")), None);
    assert_eq!(parse_usize(&chars("+")), None);
    assert_eq!(parse_usize(&chars("-1")), None);
    assert_eq!(parse_usize(&chars("12a")), None);
    assert_eq!(parse_usize(&chars(" 1")), None);
    assert_eq!(parse_usize(&chars("18446744073709551616")), None);
}

#[test]
fn parse_simple_commands() {
    assert!(matches!(parse_command("quit"), Command::Quit));
    assert!(matches!(parse_command("  q  "), Command::Quit));
    assert!(matches!(parse_command("mcap"), Command::MouseCapture));
    assert!(matches!(parse_command("rp"), Command::ReadLink));
    assert!(matches!(parse_command("refresh"), Command::Refresh));
    assert!(matches!(parse_command("pbcopy"), Command::Copy));
    assert!(matches!(parse_command("c"), Command::Close));
    assert!(matches!(parse_command("g"), Command::Gutter));
    assert!(matches!(parse_command(""), Command::Empty));
    assert!(matches!(parse_command(" \t "), Command::Empty));
}

#[test]
fn parse_open_and_export_keep_words() {
    match parse_command("open  dir file.log") {
        Command::Open(words) => assert_eq!(words, vec!["dir".to_string(), "file.log".to_string()]),
        _ => panic!("expected open"),
    }
    match parse_command("export out.txt") {
        Command::Export(words) => assert_eq!(words, vec!["out.txt".to_string()]),
        _ => panic!("expected export"),
    }
}

#[test]
fn parse_jump_and_invalid() {
    assert!(matches!(parse_command("120"), Command::Jump(120)));
    match parse_command("frobnicate now") {
        Command::Invalid(word) => assert_eq!(word, "frobnicate"),
        _ => panic!("expected invalid"),
    }
}

#[test]
fn parse_mux_commands() {
    assert!(matches!(parse_command("mux tabs"), Command::Mux(MuxCommand::Tabs)));
    assert!(matches!(parse_command("m win"), Command::Mux(MuxCommand::Panes)));
    assert!(matches!(parse_command("mux"), Command::Mux(MuxCommand::Swap)));
    match parse_command("mux grid") {
        Command::Mux(MuxCommand::Invalid(style)) => assert_eq!(style, "grid"),
        _ => panic!("expected invalid style"),
    }
}

#[test]
fn parse_filter_commands() {
    assert!(matches!(parse_command("filter link"), Command::Filter(FilterCommand::Link)));
    assert!(matches!(parse_command("f persist"), Command::Filter(FilterCommand::Persist)));
    assert!(matches!(parse_command("find ||"), Command::Filter(FilterCommand::Union)));
    assert!(matches!(parse_command("f &"), Command::Filter(FilterCommand::Intersect)));
    assert!(matches!(parse_command("f load"), Command::Filter(FilterCommand::Load)));
    assert!(matches!(parse_command("f clear"), Command::Filter(FilterCommand::Clear)));
    assert!(matches!(parse_command("filter"), Command::Filter(FilterCommand::Missing)));
    match parse_command("filter save my set") {
        Command::Filter(FilterCommand::Save(words)) => {
            assert_eq!(words.join(" "), "my set")
        }
        _ => panic!("expected save"),
    }
    match parse_command("f bogus") {
        Command::Filter(FilterCommand::Invalid(word)) => assert_eq!(word, "bogus"),
        _ => panic!("expected invalid subcommand"),
    }
}

#[test]
fn parse_filter_copy_targets() {
    assert!(matches!(
        parse_command("f copy 3"),
        Command::Filter(FilterCommand::CopyTo(IndexArg::Index(2)))
    ));
    assert!(matches!(
        parse_command("f c 0"),
        Command::Filter(FilterCommand::CopyTo(IndexArg::Index(0)))
    ));
    assert!(matches!(
        parse_command("f copy"),
        Command::Filter(FilterCommand::CopyTo(IndexArg::Missing))
    ));
    match parse_command("f copy x") {
        Command::Filter(FilterCommand::CopyTo(IndexArg::Invalid(word))) => assert_eq!(word, "x"),
        _ => panic!("expected invalid index"),
    }
}
