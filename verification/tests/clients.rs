use moq_relay::chat::{
    chat_namespace, default_username, is_said, user_namespace, user_track, ChatMessage,
    DatagramSequence, StreamSequence,
};
use moq_relay::demo::{
    activity_message, change_line, choose_mode, participant_namespace, room_namespace,
    selection_lines, text_contains, Mode, ModeError, Participant, ReceivedTracks,
};

#[test]
fn messages_round_trip() {
    let mut message = ChatMessage::new("u1", "Ada", "hello there".to_string(), 1_700_000_000);
    message.sequence = 12;
    let bytes = message.encode();
    assert_eq!(bytes, b"[1700000000:12] hello there\n");
    let decoded = ChatMessage::decode("u1", "Ada", &bytes, 5).unwrap();
    assert_eq!(decoded.timestamp, 1_700_000_000);
    assert_eq!(decoded.sequence, 12);
    assert_eq!(decoded.content, "hello there");
    assert_eq!(decoded.display(), "[22:13:20] Ada: hello there");
}

#[test]
fn plain_messages_are_said_now() {
    let plain = ChatMessage::decode("u", "n", b"  hi \n", 77).unwrap();
    assert_eq!((plain.timestamp, plain.sequence), (77, 0));
    assert_eq!(plain.content, "hi");
    let wide = ChatMessage::decode("u", "n", "\u{3000}hi\u{2003}".as_bytes(), 77).unwrap();
    assert_eq!(wide.content, "hi");
    let odd = ChatMessage::decode("u", "n", &[b'a', 0xff, b'b'], 77).unwrap();
    assert_eq!(odd.content, "a\u{fffd}b");
    let open = ChatMessage::decode("u", "n", b"[12 no end", 77).unwrap();
    assert_eq!(open.content, "[12 no end");
}

#[test]
fn broken_times_are_refused() {
    assert!(ChatMessage::decode("u", "n", b"[x:1] hi", 0).is_none());
    assert!(ChatMessage::decode("u", "n", b"[1:x] hi", 0).is_none());
    assert!(ChatMessage::decode("u", "n", b"[9223372036854775807:1] hi", 0).is_none());
    assert!(ChatMessage::decode("u", "n", b"[-5:1] hi", 0).is_some());
    assert!(ChatMessage::decode("u", "n", b"[8210266876799:1] hi", 0).is_some());
    assert!(ChatMessage::decode("u", "n", b"[8210266876800:1] hi", 0).is_none());
    assert!(ChatMessage::decode("u", "n", b"[-8334601228800:1] hi", 0).is_some());
    assert!(ChatMessage::decode("u", "n", b"[-8334601228801:1] hi", 0).is_none());
    let early = ChatMessage::new("u", "n", "x".to_string(), -1);
    assert_eq!(early.display(), "[23:59:59] n: x");
}

#[test]
fn messages_are_counted() {
    let mut streams = StreamSequence::new();
    assert_eq!(streams.publish(), 0);
    assert_eq!(streams.publish(), 1);
    let mut datagrams = DatagramSequence::new();
    datagrams.publish(false);
    assert_eq!((datagrams.sequence, datagrams.group_id), (0, 0));
    datagrams.publish(true);
    assert_eq!((datagrams.sequence, datagrams.group_id), (1, 1));
}

#[test]
fn users_have_names() {
    assert!(is_said(" a "));
    assert!(!is_said(" \t\n"));
    assert!(!is_said("\u{85}\u{a0}\u{1680}\u{2000}\u{200a}\u{2028}\u{2029}\u{202f}\u{205f}\u{3000}"));
    assert!(is_said("\u{200b}"));
    assert_eq!(chat_namespace("s"), "chat/s");
    assert_eq!(user_track("u"), "u/text");
    assert_eq!(user_namespace("s", "u"), "chat/s/u");
    assert_eq!(default_username("abcdef"), "user-abcd");
}

#[test]
fn modes_exclude_each_other() {
    assert_eq!(choose_mode(true, false, false), Ok(Mode::Publish));
    assert_eq!(choose_mode(false, true, false), Ok(Mode::Subscribe));
    assert_eq!(choose_mode(true, false, true), Ok(Mode::Both));
    assert_eq!(choose_mode(true, true, false), Err(ModeError::SeveralModes));
    assert_eq!(choose_mode(false, false, false), Err(ModeError::NoMode));
}

#[test]
fn received_tracks_are_listed_once() {
    assert_eq!(room_namespace("r"), "conference/r");
    assert_eq!(participant_namespace("r", "ada"), "conference/r/ada");
    assert_eq!(
        activity_message("ada", 7, 31),
        "{\"participant\":\"ada\",\"activity\":7,\"seq\":31}"
    );
    assert!(text_contains("conference/r/ada", "r/a"));
    assert!(!text_contains("conference/r/ada", "bob"));
    assert!(text_contains("x", ""));

    let mut received = ReceivedTracks::new(Some("ada".to_string()));
    assert!(received.receive("conference/r/ada", "audio"));
    assert!(!received.receive("conference/r/bob", "audio"));
    assert!(!received.receive("conference/r/bob", "audio"));
    assert_eq!(received.tracks(), &vec!["conference/r/bob/audio".to_string()]);
}

#[test]
fn a_selection_is_shown_line_by_line() {
    let participants = vec![
        Participant { id: 1, name: "Alice".to_string(), activity: 200 },
        Participant { id: 2, name: "Bob".to_string(), activity: 150 },
        Participant { id: 3, name: "Charlie".to_string(), activity: 100 },
    ];
    assert_eq!(
        selection_lines(&participants, &vec![2, 9]),
        vec![
            "  [SELECTED] Bob (ID 2)",
            "  [SELECTED] Unknown (ID 9)",
            "  [DESELECTED] Alice (ID 1)",
            "  [DESELECTED] Charlie (ID 3)",
        ]
    );
    assert_eq!(
        change_line(&participants, 3, "Deselected", "Selected"),
        "  Charlie (ID 3): Deselected -> Selected"
    );
}
