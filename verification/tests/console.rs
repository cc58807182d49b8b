use p2p_transfer::console::{command_event, trim_line};
use p2p_transfer::handler::Event;
use p2p_transfer::wire::{Action, Message, Request};

#[test]
fn trim_line_takes_white_space_from_both_ends() {
    assert_eq!(trim_line("  GET_FILE9000\r\n"), "GET_FILE9000");
    assert_eq!(trim_line("\t a b \u{a0}\u{3000}"), "a b");
    assert_eq!(trim_line("x"), "x");
    assert_eq!(trim_line(" x"), "x");
    assert_eq!(trim_line("x "), "x");
    assert_eq!(trim_line(""), "");
    assert_eq!(trim_line(" \n\t "), "");
    assert_eq!(trim_line("é "), "é");
}

#[test]
fn trim_line_agrees_with_the_standard_trim() {
    for line in ["", " ", "a", " a ", "\u{2003}GET_FILE1\u{2028}", "\u{85}x\u{1680}", "\u{200b}x ", "a\u{180e}"] {
        assert_eq!(trim_line(line), line.trim(), "{line:?}");
    }
}

#[test]
fn blank_line_is_no_command() {
    assert_eq!(command_event(""), None);
    assert_eq!(command_event("   \t"), None);
    assert_eq!(command_event("\n"), None);
}

#[test]
fn command_line_gives_a_request() {
    let request = Request::new(Action::GetFile, "9000".to_string()).unwrap();
    assert_eq!(command_event("GET_FILE9000"), Some(Event::Message(Message::Request(request.clone()))));
    assert_eq!(command_event("  GET_FILE9000 \n"), Some(Event::Message(Message::Request(request))));
}

#[test]
fn other_lines_are_malformed() {
    assert_eq!(command_event("hello"), Some(Event::Malformed));
    assert_eq!(command_event("GET_FILE"), Some(Event::Malformed));
    assert_eq!(command_event("GET_FILE 9000"), Some(Event::Malformed));
}
