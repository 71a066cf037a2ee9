use argus::commands::{is_confirmation, parse_command, parse_u32, parse_usize, split_words, Command};
use argus::text::{push_decimal, push_fixed1, push_signed, str_contains, str_ends_with, str_starts_with, string_of};

fn reply_of(c: Command) -> String {
    match c {
        Command::Reply(m) => m,
        _ => panic!("expected a reply"),
    }
}

#[test]
fn fixed1_rounds_half_up() {
    let mut a = String::new();
    push_fixed1(&mut a, 12345);
    assert_eq!(a, "123.5");
    let mut b = String::new();
    push_fixed1(&mut b, 12344);
    assert_eq!(b, "123.4");
    let mut c = String::new();
    push_fixed1(&mut c, 4);
    assert_eq!(c, "0.0");
    let mut d = String::new();
    push_fixed1(&mut d, 5);
    assert_eq!(d, "0.1");
}

#[test]
fn decimals_and_signs() {
    let mut s = string_of("n=");
    push_decimal(&mut s, 0);
    s.push(' ');
    push_decimal(&mut s, 4294967295);
    s.push(' ');
    push_signed(&mut s, -17);
    s.push(' ');
    push_signed(&mut s, i32::MIN);
    assert_eq!(s, "n=0 4294967295 -17 -2147483648");
}

#[test]
fn substring_checks() {
    assert!(str_contains("powershell.exe", "shell"));
    assert!(!str_contains("cmd", "cmd.exe"));
    assert!(str_starts_with("snapshot_2024.json", "snapshot_"));
    assert!(str_ends_with("snapshot_2024.json", ".json"));
    assert!(!str_ends_with("json", ".json"));
}

#[test]
fn unsigned_words() {
    assert_eq!(parse_u32("42"), Some(42));
    assert_eq!(parse_u32("+7"), Some(7));
    assert_eq!(parse_u32("007"), Some(7));
    assert_eq!(parse_u32("4294967295"), Some(4294967295));
    assert_eq!(parse_u32("4294967296"), None);
    assert_eq!(parse_u32("-1"), None);
    assert_eq!(parse_u32(""), None);
    assert_eq!(parse_u32("+"), None);
    assert_eq!(parse_u32("12a"), None);
    assert_eq!(parse_usize("3"), Some(3));
}

#[test]
fn words_split_on_white_space() {
    let w = split_words("  why   123 \t x\u{3000}y ");
    assert_eq!(w, vec!["why".to_string(), "123".to_string(), "x".to_string(), "y".to_string()]);
    assert!(split_words(" \n ").is_empty());
}

#[test]
fn why_and_show_commands() {
    assert!(matches!(parse_command("why 42"), Command::Why(42)));
    assert_eq!(reply_of(parse_command("why")), "Usage: why <pid>");
    assert_eq!(reply_of(parse_command("why abc")), "Invalid pid: abc");
    assert!(matches!(parse_command("show graph 5 2"), Command::ShowGraph(5, Some(2))));
    assert!(matches!(parse_command("show graph 5"), Command::ShowGraph(5, None)));
    assert_eq!(reply_of(parse_command("show graph 5 x")), "Invalid depth: x");
    assert_eq!(reply_of(parse_command("show graph")), "Usage: show graph <pid>");
    assert!(matches!(parse_command("show findings"), Command::ShowFindings(10)));
    assert!(matches!(parse_command("show findings 3"), Command::ShowFindings(3)));
    assert_eq!(reply_of(parse_command("show findings many")), "Invalid number: many");
    assert!(matches!(parse_command("show timeline pid 9"), Command::ShowTimeline(9)));
    assert_eq!(reply_of(parse_command("show timeline foo")), "Unknown timeline arg: foo");
    assert_eq!(reply_of(parse_command("show timeline pid")), "Usage: show timeline pid <pid>");
    assert_eq!(reply_of(parse_command("show bogus")), "Unknown show subcommand: bogus");
    assert_eq!(reply_of(parse_command("show")), "Usage: show <graph|findings|timeline>");
}

#[test]
fn action_commands() {
    assert!(matches!(parse_command("diff yesterday"), Command::DiffYesterday));
    assert_eq!(reply_of(parse_command("diff tomorrow")), "Unknown diff target: tomorrow");
    assert_eq!(reply_of(parse_command("kill 3")), "Refusing to kill reserved/system pid 3");
    assert!(matches!(parse_command("kill 100"), Command::Kill(100)));
    assert_eq!(reply_of(parse_command("suspend 4")), "Refusing to suspend reserved/system pid 4");
    assert!(matches!(parse_command("suspend 5"), Command::Suspend(5)));
    assert!(matches!(parse_command("resume 2"), Command::Resume(2)));
    match parse_command("export out.txt extra") {
        Command::Export(p) => assert_eq!(p, "out.txt"),
        _ => panic!("expected export"),
    }
    assert_eq!(reply_of(parse_command("export")), "Usage: export <path>");
    assert!(matches!(parse_command("quit"), Command::Quit));
    assert!(matches!(parse_command("exit"), Command::Quit));
    assert!(matches!(parse_command("   "), Command::Nothing));
    assert_eq!(reply_of(parse_command("frobnicate now")), "Unknown command: frobnicate");
}

#[test]
fn confirmation_lines() {
    assert!(is_confirmation(" yes \n"));
    assert!(!is_confirmation("yes please"));
    assert!(!is_confirmation("no"));
    assert!(!is_confirmation(""));
}
