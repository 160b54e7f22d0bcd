use sorted_container::command::{
    parse_age, parse_command, run_command, split_tokens, Command, CommandError, Reply,
};
use sorted_container::tree::SortedContainer;

fn reply_text(r: &Reply) -> Option<String> {
    match r {
        Reply::Show(s) => Some(s.clone()),
        _ => None,
    }
}

#[test]
fn command_lines_insert_print_quit() {
    let mut tree = SortedContainer::new();
    let mut shown: Vec<String> = Vec::new();
    let mut quit = false;
    for line in ["i 5 x\n", "p\n", "q\n", "p\n"].iter() {
        if quit {
            break;
        }
        let r = run_command(&mut tree, parse_command(line.to_string()));
        match r {
            Reply::Show(s) => shown.push(s),
            Reply::Quit => quit = true,
            _ => {}
        }
    }
    assert!(quit);
    assert_eq!(shown, vec!["[{\"5\":\"x\"},null,null]".to_string()]);
}

#[test]
fn parses_each_verb() {
    assert!(matches!(parse_command("p".to_string()), Command::Print));
    assert!(matches!(parse_command("  q \n".to_string()), Command::Exit));
    assert!(matches!(parse_command("x".to_string()), Command::Reset));
    match parse_command("i 22 Biba\n".to_string()) {
        Command::Insert { age, name } => {
            assert_eq!(age, 22);
            assert_eq!(name, "Biba");
        }
        _ => panic!("expected an insertion"),
    }
    match parse_command("e\t-4   x".to_string()) {
        Command::Erase { age, name } => {
            assert_eq!(age, -4);
            assert_eq!(name, "x");
        }
        _ => panic!("expected an erasure"),
    }
    match parse_command("c +7 y".to_string()) {
        Command::Contains { age, name } => {
            assert_eq!(age, 7);
            assert_eq!(name, "y");
        }
        _ => panic!("expected a lookup"),
    }
}

#[test]
fn malformed_commands() {
    for line in ["", "   \n", "z", "p 1", "i 5", "i 5 x y", "pp", "I 5 x"].iter() {
        assert!(matches!(
            parse_command(line.to_string()),
            Command::Error(CommandError::Malformed)
        ));
    }
}

#[test]
fn invalid_integer_commands() {
    for line in ["i five x", "e 2147483648 x", "c 1.5 x", "i - x"].iter() {
        assert!(matches!(
            parse_command(line.to_string()),
            Command::Error(CommandError::InvalidInteger)
        ));
    }
}

#[test]
fn age_field_values() {
    assert_eq!(parse_age("0"), Some(0));
    assert_eq!(parse_age("007"), Some(7));
    assert_eq!(parse_age("-2147483648"), Some(i32::MIN));
    assert_eq!(parse_age("2147483647"), Some(i32::MAX));
    assert_eq!(parse_age("+12"), Some(12));
    assert_eq!(parse_age("2147483648"), None);
    assert_eq!(parse_age("-2147483649"), None);
    assert_eq!(parse_age("99999999999999999999"), None);
    assert_eq!(parse_age(""), None);
    assert_eq!(parse_age("-"), None);
    assert_eq!(parse_age("+"), None);
    assert_eq!(parse_age("1a"), None);
    assert_eq!(parse_age("--1"), None);
}

#[test]
fn tokens_split_on_unicode_blanks() {
    let t = split_tokens("  a\u{3000}bc \u{a0}d\te\n");
    assert_eq!(t, vec!["a", "bc", "d", "e"]);
    assert!(split_tokens(" \t\n").is_empty());
    assert_eq!(split_tokens("één"), vec!["één"]);
}

#[test]
fn run_command_effects() {
    let mut tree = SortedContainer::new();
    assert!(matches!(
        run_command(&mut tree, parse_command("i 22 Biba".to_string())),
        Reply::Silent
    ));
    let r = run_command(&mut tree, parse_command("c 22 Biba".to_string()));
    assert_eq!(reply_text(&r), Some("y".to_string()));
    let r = run_command(&mut tree, parse_command("c 22 Boba".to_string()));
    assert_eq!(reply_text(&r), Some("n".to_string()));
    run_command(&mut tree, parse_command("e 22 Biba".to_string()));
    let r = run_command(&mut tree, parse_command("c 22 Biba".to_string()));
    assert_eq!(reply_text(&r), Some("n".to_string()));
    run_command(&mut tree, parse_command("i 3 a".to_string()));
    run_command(&mut tree, parse_command("x".to_string()));
    let r = run_command(&mut tree, parse_command("p".to_string()));
    assert_eq!(reply_text(&r), Some("null".to_string()));
    let r = run_command(&mut tree, parse_command("i x y".to_string()));
    assert!(matches!(r, Reply::Complain(CommandError::InvalidInteger)));
    let r = run_command(&mut tree, parse_command("hello".to_string()));
    assert!(matches!(r, Reply::Complain(CommandError::Malformed)));
}
