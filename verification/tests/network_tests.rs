use netcom::network::{
    connect_step, greeting, parse_host_reply, parse_ipv4, parse_stream_data, parse_stream_text, remove_dead,
    split_host_port, take_chunk, ConnectStep, HostReply, NetCommand,
};
use netcom::utils::key_to_string;

fn join_command() -> NetCommand {
    NetCommand::Join {
        username: "alice".to_string(),
        public_key: [1u8; 32],
        timestamp: 1700000000,
        salt: "join7".to_string(),
        evidence: "EV".to_string(),
    }
}

fn message_command() -> NetCommand {
    NetCommand::Message {
        username: "bob".to_string(),
        public_key: [200u8; 32],
        timestamp: 42,
        content: "hello there".to_string(),
        tags: vec!["rust".to_string(), "coding".to_string()],
        salt: "17".to_string(),
        evidence: "SIG".to_string(),
    }
}

#[test]
fn to_buf_writes_join_fields_between_nulls() {
    let expected = format!("JOIN\0alice\0{}\01700000000\0join7\0EV\0", key_to_string(&[1u8; 32]));
    assert_eq!(join_command().to_buf(), expected.as_bytes().to_vec());
}

#[test]
fn to_buf_writes_leave_fields_between_nulls() {
    let cmd = NetCommand::Leave {
        username: "al".to_string(),
        public_key: [0u8; 32],
        timestamp: 0,
        salt: "1".to_string(),
        evidence: "".to_string(),
    };
    let expected = format!("LEAVE\0al\0{}\00\01\0\0", key_to_string(&[0u8; 32]));
    assert_eq!(cmd.to_buf(), expected.as_bytes().to_vec());
}

#[test]
fn to_buf_writes_message_tags_with_spaces() {
    let expected = format!(
        "MSG\0bob\0{}\042\0hello there\0rust coding\017\0SIG\0",
        key_to_string(&[200u8; 32])
    );
    assert_eq!(message_command().to_buf(), expected.as_bytes().to_vec());
    assert_eq!(message_command().to_text(), expected);
}

#[test]
fn signed_text_stops_before_the_evidence() {
    let expected = format!("JOIN\0alice\0{}\01700000000\0join7\0", key_to_string(&[1u8; 32]));
    assert_eq!(join_command().signed_text(), expected);
}

#[test]
fn reading_written_commands_gives_them_back() {
    let mut data = join_command().to_buf();
    data.extend(message_command().to_buf());
    let mut buffer: Vec<String> = vec![];
    let read = parse_stream_data(&mut buffer, &data);
    assert_eq!(read, vec![join_command(), message_command()]);
    assert!(buffer.is_empty());
}

#[test]
fn reading_bytes_that_are_not_utf8_gives_nothing() {
    let mut buffer = vec!["kept".to_string()];
    let read = parse_stream_data(&mut buffer, &[0xff, 0xfe, 0x00]);
    assert!(read.is_empty());
    assert_eq!(buffer, vec!["kept".to_string()]);
}

#[test]
fn an_incomplete_command_is_kept_in_the_buffer() {
    let mut buffer: Vec<String> = vec![];
    let read = parse_stream_text(&mut buffer, "JOIN\0alice\0");
    assert!(read.is_empty());
    assert_eq!(buffer, vec!["JOIN".to_string(), "alice".to_string(), "".to_string()]);
}

#[test]
fn the_buffer_is_read_before_new_text() {
    let text = join_command().to_text();
    let mut buffer = vec!["".to_string()];
    let read = parse_stream_text(&mut buffer, &text);
    assert_eq!(read, vec![join_command()]);
    assert!(buffer.is_empty());
}

#[test]
fn a_command_cut_across_reads_is_read_once() {
    let text = format!("{}{}", join_command().to_text(), message_command().to_text());
    for cut in 0..=text.len() {
        let mut buffer: Vec<String> = vec![];
        let mut read = parse_stream_text(&mut buffer, &text[..cut]);
        read.extend(parse_stream_text(&mut buffer, &text[cut..]));
        assert_eq!(read, vec![join_command(), message_command()]);
        assert!(buffer.is_empty());
    }
}

#[test]
fn a_field_cut_off_by_a_read_is_joined_with_the_next() {
    let text = join_command().to_text();
    let mut buffer: Vec<String> = vec![];
    assert!(parse_stream_text(&mut buffer, &text[..3]).is_empty());
    assert_eq!(buffer, vec!["JOI".to_string()]);
    assert_eq!(parse_stream_text(&mut buffer, &text[3..]), vec![join_command()]);
    assert!(buffer.is_empty());
}

#[test]
fn fields_already_read_are_not_read_again() {
    let mut buffer: Vec<String> = vec![];
    assert_eq!(parse_stream_text(&mut buffer, &join_command().to_text()), vec![join_command()]);
    assert!(parse_stream_text(&mut buffer, "").is_empty());
    assert!(buffer.is_empty());
}

#[test]
fn fields_that_name_no_command_are_skipped() {
    let text = format!("HELLO\0\0{}", join_command().to_text());
    let mut buffer: Vec<String> = vec![];
    assert_eq!(parse_stream_text(&mut buffer, &text), vec![join_command()]);
}

#[test]
fn a_command_with_a_bad_key_is_skipped() {
    let text = "JOIN\0alice\0not-a-key\01\0s\0e\0";
    let mut buffer: Vec<String> = vec![];
    assert!(parse_stream_text(&mut buffer, text).is_empty());
    assert!(buffer.is_empty());
}

#[test]
fn a_command_with_a_bad_timestamp_is_skipped() {
    let text = format!("LEAVE\0alice\0{}\0soon\0s\0e\0", key_to_string(&[3u8; 32]));
    let mut buffer: Vec<String> = vec![];
    assert!(parse_stream_text(&mut buffer, &text).is_empty());
}

#[test]
fn message_tags_are_split_at_spaces() {
    let text = format!("MSG\0u\0{}\05\0c\0a  b\0s\0e\0", key_to_string(&[9u8; 32]));
    let mut buffer: Vec<String> = vec![];
    let read = parse_stream_text(&mut buffer, &text);
    assert_eq!(read.len(), 1);
    match &read[0] {
        NetCommand::Message { tags, timestamp, .. } => {
            assert_eq!(tags, &vec!["a".to_string(), "".to_string(), "b".to_string()]);
            assert_eq!(*timestamp, 5);
        },
        other => panic!("not a message: {:?}", other),
    }
}

#[test]
fn host_replies_are_read() {
    assert_eq!(parse_host_reply(b"READY\0"), Some(HostReply::Ready));
    assert_eq!(parse_host_reply(b"CLOSE\0"), Some(HostReply::Close));
    assert_eq!(
        parse_host_reply(b"REDIR\0127.0.0.1:6500\0"),
        Some(HostReply::Redir("127.0.0.1:6500".to_string()))
    );
    assert_eq!(parse_host_reply(b"REDIR\0a:1"), Some(HostReply::Redir("a:1".to_string())));
    assert_eq!(
        parse_host_reply(b"REDIR\0a:1\0READY\0"),
        Some(HostReply::Redir("a:1".to_string()))
    );
    assert_eq!(parse_host_reply(b"HELLO"), None);
    assert_eq!(parse_host_reply(b""), None);
    assert_eq!(parse_host_reply(&[0xff]), None);
}

#[test]
fn addresses_split_into_host_and_port() {
    assert_eq!(split_host_port("127.0.0.1:6500"), Some(("127.0.0.1".to_string(), 6500)));
    assert_eq!(split_host_port("h:1:2"), Some(("h".to_string(), 1)));
    assert_eq!(split_host_port("nohost"), None);
    assert_eq!(split_host_port("h:70000"), None);
    assert_eq!(split_host_port("h:6500\0"), None);
}

#[test]
fn connect_steps_follow_the_reply() {
    assert_eq!(connect_step(HostReply::Ready, false, 0), ConnectStep::Connected);
    assert_eq!(connect_step(HostReply::Close, true, 0), ConnectStep::Refused);
    assert_eq!(
        connect_step(HostReply::Redir("a:1".to_string()), true, 3),
        ConnectStep::Redirect("a:1".to_string(), 4)
    );
    assert_eq!(connect_step(HostReply::Redir("a:1".to_string()), false, 0), ConnectStep::Refused);
    assert_eq!(connect_step(HostReply::Redir("a:1".to_string()), true, 10), ConnectStep::Refused);
}

#[test]
fn greetings_are_ready_or_redirect() {
    assert_eq!(greeting(None), b"READY\0".to_vec());
    assert_eq!(greeting(Some("1.2.3.4:5")), b"REDIR\01.2.3.4:5\0".to_vec());
}

#[test]
fn a_greeting_reads_back_as_what_it_says() {
    assert_eq!(parse_host_reply(&greeting(None)), Some(HostReply::Ready));
    let redirect = greeting(Some("127.0.0.1:6501"));
    assert_eq!(parse_host_reply(&redirect), Some(HostReply::Redir("127.0.0.1:6501".to_string())));
    match parse_host_reply(&redirect) {
        Some(HostReply::Redir(addr)) => {
            assert_eq!(split_host_port(&addr), Some(("127.0.0.1".to_string(), 6501)))
        },
        other => panic!("not a redirect: {:?}", other),
    }
}

#[test]
fn chunks_are_appended_until_an_empty_one() {
    let mut out = vec![1u8];
    assert!(take_chunk(&mut out, &[2, 3]));
    assert!(take_chunk(&mut out, &[4]));
    assert!(!take_chunk(&mut out, &[]));
    assert_eq!(out, vec![1, 2, 3, 4]);
}

#[test]
fn dead_streams_are_removed_from_the_last() {
    let mut items = vec!['a', 'b', 'c', 'd', 'e'];
    let removed = remove_dead(&mut items, vec![1, 3]);
    assert_eq!(removed, vec![3, 1]);
    assert_eq!(items, vec!['a', 'c', 'e']);
    let mut few = vec![1, 2];
    assert_eq!(remove_dead(&mut few, vec![5]), vec![5]);
    assert_eq!(few, vec![1, 2]);
}

#[test]
fn tags_with_white_space_inside_read_back() {
    let cmd = NetCommand::Message {
        username: "bob".to_string(),
        public_key: [7u8; 32],
        timestamp: 3,
        content: "c".to_string(),
        tags: vec!["a\tb".to_string(), "c\u{3000}d".to_string()],
        salt: "1".to_string(),
        evidence: "E".to_string(),
    };
    let mut buffer: Vec<String> = vec![];
    assert_eq!(parse_stream_data(&mut buffer, &cmd.to_buf()), vec![cmd]);
    assert!(buffer.is_empty());
}

#[test]
fn ipv4_addresses_read_as_std_reads_them() {
    assert_eq!(parse_ipv4("127.0.0.1"), Some([127, 0, 0, 1]));
    assert_eq!(parse_ipv4("0.0.0.0"), Some([0, 0, 0, 0]));
    assert_eq!(parse_ipv4("255.255.255.255"), Some([255, 255, 255, 255]));
    for bad in ["01.0.0.0", "256.1.1.1", "1.2.3", "1.2.3.4.5", "+1.2.3.4", "1..2.3", "", "a.b.c.d", "1.2.3.0004"] {
        assert_eq!(parse_ipv4(bad), None, "{bad}");
    }
    assert_eq!(parse_ipv4("10.20.30.40"), Some([10, 20, 30, 40]));
}
