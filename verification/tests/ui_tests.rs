use netcom::ui::{Key, UiState};

fn type_text(ui: &mut UiState, text: &str) {
    for b in text.bytes() {
        assert!(ui.handle_key(Key::Byte(b)));
    }
}

#[test]
fn typed_text_goes_to_the_selected_line() {
    let mut ui = UiState::new();
    type_text(&mut ui, "hello");
    assert!(ui.handle_key(Key::ArrowDown));
    type_text(&mut ui, "rust");
    assert_eq!(ui.msg_input(), "hello");
    assert_eq!(ui.tag_input(), "rust");
    assert_eq!(ui.input_selector(), 1);
}

#[test]
fn arrows_keep_the_selector_in_range() {
    let mut ui = UiState::new();
    ui.handle_key(Key::ArrowUp);
    assert_eq!(ui.input_selector(), 0);
    ui.handle_key(Key::ArrowDown);
    ui.handle_key(Key::ArrowDown);
    assert_eq!(ui.input_selector(), 1);
    ui.handle_key(Key::ArrowUp);
    assert_eq!(ui.input_selector(), 0);
}

#[test]
fn enter_queues_the_trimmed_message_and_keeps_the_tags() {
    let mut ui = UiState::new();
    type_text(&mut ui, "  hi ");
    ui.handle_key(Key::ArrowDown);
    type_text(&mut ui, " a b ");
    assert!(ui.handle_key(Key::Enter));
    assert_eq!(ui.msg_input(), "");
    assert_eq!(ui.tag_input(), " a b ");
    assert_eq!(ui.get_outgoing(), vec![("hi".to_string(), "a b".to_string())]);
    assert!(ui.get_outgoing().is_empty());
}

#[test]
fn enter_with_an_empty_message_does_nothing() {
    let mut ui = UiState::new();
    ui.handle_key(Key::Enter);
    assert!(ui.get_outgoing().is_empty());
}

#[test]
fn backspace_removes_the_last_character() {
    let mut ui = UiState::new();
    type_text(&mut ui, "ab");
    ui.handle_key(Key::Backspace);
    assert_eq!(ui.msg_input(), "a");
    ui.handle_key(Key::Backspace);
    ui.handle_key(Key::Backspace);
    assert_eq!(ui.msg_input(), "");
}

#[test]
fn control_bytes_are_not_typed() {
    let mut ui = UiState::new();
    ui.handle_key(Key::Byte(0));
    ui.handle_key(Key::Byte(0x1b));
    ui.handle_key(Key::Byte(0x85));
    ui.handle_key(Key::Byte(0xe9));
    assert_eq!(ui.msg_input(), "\u{e9}");
}

#[test]
fn ctrl_c_closes() {
    let mut ui = UiState::new();
    assert!(!ui.handle_key(Key::CtrlC));
    assert!(ui.handle_key(Key::Nothing));
}

#[test]
fn new_messages_come_first() {
    let mut ui = UiState::new();
    ui.new_message("one".to_string());
    ui.new_message("two".to_string());
    assert_eq!(ui.messages(), &vec!["two".to_string(), "one".to_string()]);
}
