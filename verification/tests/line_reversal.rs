use protohackers_rs::line_reversal::lrcp::{
    chunk_lines, retransmit, reverse_line, LrcpSession, Outcome, Phase, CHUNK_SIZE,
};
use protohackers_rs::line_reversal::message::{
    parse_message, Message, ParseError, Payload, SessionId,
};
use protohackers_rs::line_reversal::{
    handle_receive_client_packet, handle_receive_internal_packet, Outbound, Route, Sessions,
};

fn data(session: u32, position: u32, bytes: &[u8]) -> Message {
    Message::new_data(SessionId(session), bytes.to_vec(), position)
}

fn connected(id: u32) -> LrcpSession {
    let mut session = LrcpSession::new(SessionId(id));
    session.handle_message(Message::parse(format!("/connect/{}/", id).as_bytes()).unwrap());
    session
}

fn packets(messages: &[Message]) -> Vec<Vec<u8>> {
    messages.iter().map(|m| m.to_packet()).collect()
}

fn replies(outcome: &Outcome) -> Vec<String> {
    outcome
        .replies
        .iter()
        .map(|m| String::from_utf8(m.to_packet()).unwrap())
        .collect()
}

fn batches(outcome: &Outcome) -> Vec<Vec<String>> {
    outcome
        .batches
        .iter()
        .map(|b| b.iter().map(|m| String::from_utf8(m.to_packet()).unwrap()).collect())
        .collect()
}

#[test]
fn parse_connect() {
    let bytes = b"/connect/123/";
    let message = parse_message(bytes).unwrap();
    assert_eq!(message.session.0, 123);
    assert_eq!(message.payload, Payload::Connect);
    assert_eq!(message.to_packet(), bytes);
}

#[test]
fn parse_close() {
    let bytes = b"/close/123/";
    let message = parse_message(bytes).unwrap();
    assert_eq!(message.session.0, 123);
    assert_eq!(message.payload, Payload::Close);
    assert_eq!(message.to_packet(), bytes);
}

#[test]
fn parse_ack() {
    let bytes = b"/ack/123/456/";
    let message = parse_message(bytes).unwrap();
    assert_eq!(message.session.0, 123);
    assert_eq!(message.payload, Payload::Ack { position: 456 });
    assert_eq!(message.to_packet(), bytes);
}

#[test]
fn parse_data() {
    let bytes = b"/data/123/456/Hello, World!/";
    let message = parse_message(bytes).unwrap();
    assert_eq!(message.session.0, 123);
    assert_eq!(
        message.payload,
        Payload::Data {
            position: 456,
            data: b"Hello, World!".to_vec()
        }
    );

    assert_eq!(message.to_packet(), bytes);
}

#[test]
fn every_kind_of_message_survives_the_round_trip() {
    let messages = vec![
        Message { session: SessionId(0), payload: Payload::Connect },
        Message { session: SessionId(u32::MAX), payload: Payload::Close },
        Message::new_ack(SessionId(1234567), 0),
        Message::new_ack(SessionId(7), u32::MAX),
        data(12, 4294967295, b"x"),
        data(0, 10, b"line one\nline two\n"),
    ];
    for message in messages {
        let again = Message::parse(&message.to_packet()).unwrap();
        assert_eq!(again.session, message.session);
        assert_eq!(again.payload, message.payload);
        assert_eq!(again.session_id(), &message.session);
    }
}

#[test]
fn slashes_and_backslashes_are_escaped() {
    let message = data(5, 0, b"a/b\\c//\\\\\n");
    let packet = message.to_packet();
    assert_eq!(packet, b"/data/5/0/a\\/b\\\\c\\/\\/\\\\\\\\\n/".to_vec());
    let again = Message::parse(&packet).unwrap();
    assert_eq!(again.payload, message.payload);
    let parsed = Message::parse(b"/data/1/2/\\//").unwrap();
    assert_eq!(parsed.payload, Payload::Data { data: b"/".to_vec(), position: 2 });
}

#[test]
fn numbers_are_written_without_leading_zeros_and_read_with_them() {
    assert_eq!(Message::new_ack(SessionId(0), 100).to_packet(), b"/ack/0/100/".to_vec());
    assert_eq!(
        Message::new_ack(SessionId(4294967295), 10).to_packet(),
        b"/ack/4294967295/10/".to_vec()
    );
    let read = Message::parse(b"/ack/007/0000000000000042/").unwrap();
    assert_eq!(read.session, SessionId(7));
    assert_eq!(read.payload, Payload::Ack { position: 42 });
}

#[test]
fn frames_must_start_and_end_with_a_slash_and_have_their_fields() {
    for bytes in [
        &b""[..],
        b"/",
        b"//",
        b"connect/1/",
        b"/connect/1",
        b"/connect/",
        b"/connect/1/2/",
        b"/close/1/2/",
        b"/ack/1/",
        b"/ack/1/2/3/",
        b"/data/1/",
        b"/data/1/2/",
    ] {
        assert_eq!(Message::parse(bytes).unwrap_err(), ParseError::Framing, "{:?}", bytes);
    }
}

#[test]
fn unknown_kinds_are_refused() {
    for bytes in [&b"/open/1/"[..], b"//1/", b"/Connect/1/", b"/acks/1/2/", b"/dat/1/2/x/"] {
        assert_eq!(Message::parse(bytes).unwrap_err(), ParseError::Kind, "{:?}", bytes);
    }
}

#[test]
fn numbers_must_be_digits_that_fit_in_32_bits() {
    for bytes in [
        &b"/connect//"[..],
        b"/connect/-1/",
        b"/connect/+1/",
        b"/connect/1a/",
        b"/connect/4294967296/",
        b"/close/99999999999999999999/",
        b"/ack/1//",
        b"/ack/1/x/",
        b"/ack/x/1/",
        b"/ack/1/4294967296/",
        b"/data/1/ 2/x/",
        b"/data//2/x/",
    ] {
        assert_eq!(Message::parse(bytes).unwrap_err(), ParseError::Number, "{:?}", bytes);
    }
    assert!(Message::parse(b"/connect/4294967295/").is_ok());
}

#[test]
fn data_must_be_there_and_be_escaped() {
    for bytes in [
        &b"/data/1/2//"[..],
        b"/data/1/2/a/b/",
        b"/data/1/2/a\\b/",
        b"/data/1/2/ab\\/",
        b"/data/1/2///",
    ] {
        assert_eq!(Message::parse(bytes).unwrap_err(), ParseError::Data, "{:?}", bytes);
    }
}

#[test]
fn reverse_line_keeps_the_newline_at_the_end() {
    assert_eq!(reverse_line("hello\n"), "olleh\n");
    assert_eq!(reverse_line("\n"), "\n");
    assert_eq!(reverse_line("hello"), "olleh\n");
    assert_eq!(reverse_line(""), "\n");
    assert_eq!(reverse_line("a b \n"), " b a\n");
    assert_eq!(reverse_line("h\u{e9}llo w\u{f6}rld\n"), "dlr\u{f6}w oll\u{e9}h\n");
    assert_eq!(reverse_line("a\n\n"), "\na\n");
}

#[test]
fn reversing_twice_gives_the_line_back() {
    for line in ["hello\n", "\n", " padded \t\n", "gr\u{fc}\u{df}e\n", "a/b\\c\n", "a\nb\n"] {
        assert_eq!(reverse_line(&reverse_line(line)), line);
    }
}

#[test]
fn lines_are_cut_into_chunks_of_900_bytes() {
    assert_eq!(CHUNK_SIZE, 900);
    assert_eq!(chunk_lines(String::new()), Vec::<Vec<u8>>::new());
    assert_eq!(chunk_lines("abc\n".to_string()), vec![b"abc\n".to_vec()]);
    assert_eq!(chunk_lines("a".repeat(900)), vec![vec![b'a'; 900]]);
    let long = format!("{}{}{}", "a".repeat(900), "b".repeat(900), "c");
    assert_eq!(
        chunk_lines(long),
        vec![vec![b'a'; 900], vec![b'b'; 900], vec![b'c'; 1]]
    );
    let wide = "\u{e9}".repeat(451);
    let chunks = chunk_lines(wide.clone());
    assert_eq!(chunks.len(), 2);
    assert_eq!(chunks[0].len(), 900);
    assert_eq!(chunks[1].len(), 2);
    assert_eq!(chunks.concat(), wide.into_bytes());
}

#[test]
fn a_line_goes_out_at_increasing_positions() {
    let mut session = connected(9);
    let line = format!("{}{}\n", "a".repeat(900), "b".repeat(900));
    let batch = session.send_line(line);
    assert_eq!(batch.len(), 3);
    assert_eq!(batch[0].payload, Payload::Data { data: vec![b'a'; 900], position: 0 });
    assert_eq!(batch[1].payload, Payload::Data { data: vec![b'b'; 900], position: 900 });
    assert_eq!(batch[2].payload, Payload::Data { data: b"\n".to_vec(), position: 1800 });
    assert!(batch.iter().all(|m| m.session == SessionId(9)));
    assert_eq!(session.bytes_sent(), 1801);
    let next = session.send_line("x\n".to_string());
    assert_eq!(next.len(), 1);
    assert_eq!(next[0].payload, Payload::Data { data: b"x\n".to_vec(), position: 1801 });
    assert_eq!(session.bytes_sent(), 1803);
    assert!(session.send_line(String::new()).is_empty());
    assert_eq!(session.bytes_sent(), 1803);
}

#[test]
fn a_session_starts_pending_and_connects() {
    let mut session = LrcpSession::new(SessionId(1234567));
    assert_eq!(session.id(), SessionId(1234567));
    assert_eq!(session.phase(), Phase::Pending);
    assert_eq!(session.bytes_received(), 0);
    assert_eq!(session.bytes_sent(), 0);
    assert_eq!(session.bytes_acked(), 0);
    assert!(session.buffered().is_empty());
    let outcome = session.handle_message(Message::parse(b"/connect/1234567/").unwrap());
    assert_eq!(replies(&outcome), vec!["/ack/1234567/0/"]);
    assert!(outcome.batches.is_empty());
    assert_eq!(session.phase(), Phase::Connected);
    let again = session.handle_message(Message::parse(b"/connect/1234567/").unwrap());
    assert_eq!(replies(&again), vec!["/ack/1234567/0/"]);
    assert_eq!(session.phase(), Phase::Connected);
}

#[test]
fn anything_but_connect_closes_a_pending_session() {
    for bytes in [&b"/data/3/0/hi/"[..], b"/ack/3/0/", b"/close/3/"] {
        let mut session = LrcpSession::new(SessionId(3));
        let outcome = session.handle_message(Message::parse(bytes).unwrap());
        assert_eq!(replies(&outcome), vec!["/close/3/"]);
        assert!(outcome.batches.is_empty());
        assert_eq!(session.phase(), Phase::Closed);
        assert_eq!(session.bytes_received(), 0);
    }
}

#[test]
fn a_closed_session_takes_nothing_in() {
    let mut session = connected(3);
    let outcome = session.handle_message(Message::parse(b"/close/3/").unwrap());
    assert_eq!(replies(&outcome), vec!["/close/3/"]);
    assert_eq!(session.phase(), Phase::Closed);
    for bytes in [&b"/connect/3/"[..], b"/data/3/0/hi\n/", b"/ack/3/0/", b"/close/3/"] {
        let outcome = session.handle_message(Message::parse(bytes).unwrap());
        assert!(outcome.replies.is_empty());
        assert!(outcome.batches.is_empty());
        assert_eq!(session.phase(), Phase::Closed);
        assert_eq!(session.bytes_received(), 0);
    }
    assert!(session.timeout().replies.is_empty());
}

#[test]
fn end_to_end_scenario() {
    let mut sessions: Sessions<&str> = Sessions::new();
    let connect = Message::parse(b"/connect/1234567/").unwrap();
    assert!(matches!(handle_receive_client_packet(&connect, &mut sessions), Route::Open));
    assert!(sessions.insert(1234567, "peer"));
    let mut session = LrcpSession::new(SessionId(1234567));
    let outcome = session.handle_message(connect);
    assert_eq!(replies(&outcome), vec!["/ack/1234567/0/"]);

    let hello = Message::parse(b"/data/1234567/0/hello/").unwrap();
    assert!(matches!(handle_receive_client_packet(&hello, &mut sessions), Route::Deliver(&"peer")));
    let outcome = session.handle_message(hello);
    assert_eq!(replies(&outcome), vec!["/ack/1234567/5/"]);
    assert!(outcome.batches.is_empty());
    assert_eq!(session.buffered(), b"hello");

    let outcome = session.handle_message(Message::parse(b"/data/1234567/5/\n/").unwrap());
    assert_eq!(replies(&outcome), vec!["/ack/1234567/6/"]);
    assert_eq!(batches(&outcome), vec![vec!["/data/1234567/0/olleh\n/"]]);
    assert_eq!(session.bytes_received(), 6);
    assert_eq!(session.bytes_sent(), 6);
    assert!(session.buffered().is_empty());
    let batch = &outcome.batches[0];
    assert_eq!(retransmit(batch, session.bytes_acked()), vec![b"/data/1234567/0/olleh\n/".to_vec()]);

    let outcome = session.handle_message(Message::parse(b"/ack/1234567/6/").unwrap());
    assert!(outcome.replies.is_empty());
    assert!(outcome.batches.is_empty());
    assert_eq!(session.bytes_acked(), 6);
    assert!(retransmit(batch, session.bytes_acked()).is_empty());

    let close = Message::parse(b"/close/1234567/").unwrap();
    assert!(matches!(handle_receive_client_packet(&close, &mut sessions), Route::Last("peer")));
    assert!(!sessions.contains(1234567));
    let outcome = session.handle_message(close);
    assert_eq!(replies(&outcome), vec!["/close/1234567/"]);
    assert_eq!(session.phase(), Phase::Closed);
}

#[test]
fn a_gap_is_answered_by_the_old_acknowledgment() {
    let mut session = connected(4);
    session.handle_message(data(4, 0, b"abc"));
    let outcome = session.handle_message(data(4, 4, b"efg\n"));
    assert_eq!(replies(&outcome), vec!["/ack/4/3/"]);
    assert!(outcome.batches.is_empty());
    assert_eq!(session.bytes_received(), 3);
    assert_eq!(session.buffered(), b"abc");
    assert_eq!(session.phase(), Phase::Connected);
}

#[test]
fn a_duplicate_changes_nothing() {
    let mut session = connected(4);
    session.handle_message(data(4, 0, b"abc"));
    session.handle_message(data(4, 3, b"def"));
    let same = session.handle_message(data(4, 3, b"def"));
    assert_eq!(replies(&same), vec!["/ack/4/6/"]);
    assert!(same.batches.is_empty());
    let older = session.handle_message(data(4, 0, b"abc"));
    assert!(older.replies.is_empty());
    assert!(older.batches.is_empty());
    let inside = session.handle_message(data(4, 1, b"b\n"));
    assert!(inside.replies.is_empty());
    assert!(inside.batches.is_empty());
    assert_eq!(session.bytes_received(), 6);
    assert_eq!(session.buffered(), b"abcdef");
}

#[test]
fn an_overlap_adds_what_is_new() {
    let mut session = connected(4);
    session.handle_message(data(4, 0, b"abc"));
    let outcome = session.handle_message(data(4, 1, b"bcde\nf"));
    assert_eq!(replies(&outcome), vec!["/ack/4/7/"]);
    assert_eq!(batches(&outcome), vec![vec!["/data/4/0/edcba\n/"]]);
    assert_eq!(session.bytes_received(), 7);
    assert_eq!(session.buffered(), b"f");
}

#[test]
fn pieces_in_any_order_give_the_stream() {
    let stream = b"one\ntwo\nthree\nfour";
    let pieces: [(u32, usize); 9] =
        [(4, 4), (0, 2), (0, 2), (1, 3), (10, 3), (2, 7), (0, 18), (5, 9), (9, 9)];
    let mut session = connected(8);
    let mut sent: Vec<u8> = Vec::new();
    for (position, len) in pieces {
        let start = position as usize;
        let before = session.bytes_received();
        let outcome = session.handle_message(data(8, position, &stream[start..start + len]));
        let expected = if position <= before && before < position + len as u32 {
            position + len as u32
        } else {
            before
        };
        assert_eq!(session.bytes_received(), expected);
        for batch in &outcome.batches {
            for message in batch {
                match &message.payload {
                    Payload::Data { data, position } => {
                        assert_eq!(*position as usize, sent.len());
                        sent.extend_from_slice(data);
                    }
                    _ => panic!("a batch holds data messages only"),
                }
            }
        }
    }
    assert_eq!(session.bytes_received(), 18);
    assert_eq!(session.buffered(), b"four");
    assert_eq!(sent, b"eno\nowt\neerht\n".to_vec());
    assert_eq!(session.bytes_sent(), 14);
}

#[test]
fn several_lines_in_one_piece_are_answered_in_order() {
    let mut session = connected(2);
    let outcome = session.handle_message(data(2, 0, b"ab\ncd\n\nrest"));
    assert_eq!(replies(&outcome), vec!["/ack/2/11/"]);
    assert_eq!(
        batches(&outcome),
        vec![vec!["/data/2/0/ba\n/"], vec!["/data/2/3/dc\n/"], vec!["/data/2/6/\n/"]]
    );
    assert_eq!(session.buffered(), b"rest");
    assert_eq!(session.bytes_sent(), 7);
}

#[test]
fn a_long_line_goes_out_in_several_messages() {
    let mut session = connected(2);
    let mut line = vec![b'x'; 899];
    line.push(b'/');
    line.extend_from_slice(&[b'y'; 500]);
    session.handle_message(data(2, 0, &line));
    let outcome = session.handle_message(data(2, 1400, b"\n"));
    assert_eq!(outcome.batches.len(), 1);
    let batch = &outcome.batches[0];
    assert_eq!(batch.len(), 2);
    let mut first = vec![b'y'; 500];
    first.push(b'/');
    first.extend_from_slice(&[b'x'; 399]);
    assert_eq!(batch[0].payload, Payload::Data { data: first, position: 0 });
    let mut second = vec![b'x'; 500];
    second.push(b'\n');
    assert_eq!(batch[1].payload, Payload::Data { data: second, position: 900 });
    assert_eq!(session.bytes_sent(), 1401);
}

#[test]
fn text_that_is_not_utf8_is_answered_with_replacement_characters() {
    let mut session = connected(2);
    let outcome = session.handle_message(data(2, 0, b"a\xffb\n"));
    assert_eq!(outcome.batches.len(), 1);
    assert_eq!(
        outcome.batches[0][0].payload,
        Payload::Data { data: "b\u{fffd}a\n".as_bytes().to_vec(), position: 0 }
    );
    assert_eq!(session.bytes_received(), 4);
    assert_eq!(session.bytes_sent(), 6);
    let outcome = session.handle_message(data(2, 4, "gr\u{fc}n\n".as_bytes()));
    assert_eq!(
        outcome.batches[0][0].payload,
        Payload::Data { data: "n\u{fc}rg\n".as_bytes().to_vec(), position: 6 }
    );
}

#[test]
fn acknowledgments_move_forward_only() {
    let mut session = connected(6);
    session.handle_message(data(6, 0, b"hello\nworld\n"));
    assert_eq!(session.bytes_sent(), 12);
    session.handle_message(Message::new_ack(SessionId(6), 6));
    assert_eq!(session.bytes_acked(), 6);
    session.handle_message(Message::new_ack(SessionId(6), 2));
    assert_eq!(session.bytes_acked(), 6);
    session.handle_message(Message::new_ack(SessionId(6), 12));
    assert_eq!(session.bytes_acked(), 12);
    assert_eq!(session.phase(), Phase::Connected);
}

#[test]
fn an_acknowledgment_of_more_than_was_sent_closes_the_session() {
    let mut session = connected(6);
    session.handle_message(data(6, 0, b"hello\n"));
    let outcome = session.handle_message(Message::new_ack(SessionId(6), 7));
    assert_eq!(replies(&outcome), vec!["/close/6/"]);
    assert!(outcome.batches.is_empty());
    assert_eq!(session.phase(), Phase::Closed);
    assert_eq!(session.bytes_acked(), 0);
}

#[test]
fn a_piece_far_ahead_is_a_gap() {
    let mut session = connected(6);
    session.handle_message(data(6, 0, b"abc"));
    let outcome = session.handle_message(data(6, 4294967295, b"xy"));
    assert_eq!(replies(&outcome), vec!["/ack/6/3/"]);
    assert_eq!(session.phase(), Phase::Connected);
    assert_eq!(session.bytes_received(), 3);
}

#[test]
fn a_silent_session_times_out() {
    let mut session = connected(6);
    let outcome = session.timeout();
    assert_eq!(replies(&outcome), vec!["/close/6/"]);
    assert_eq!(session.phase(), Phase::Closed);
    let mut pending = LrcpSession::new(SessionId(7));
    assert_eq!(replies(&pending.timeout()), vec!["/close/7/"]);
    assert_eq!(pending.phase(), Phase::Closed);
}

#[test]
fn a_session_that_ends_unasked_tells_the_dispatcher() {
    let mut session = connected(6);
    let actions = session.on_event(Some(data(6, 0, b"hello\nwor")));
    assert_eq!(packets(&actions.to_peer), vec![b"/ack/6/9/".to_vec()]);
    assert!(actions.to_dispatcher.is_empty());
    assert_eq!(actions.batches.len(), 1);
    assert_eq!(packets(&actions.batches[0]), vec![b"/data/6/0/olleh\n/".to_vec()]);
    let actions = session.on_event(Some(Message::new_ack(SessionId(6), 7)));
    assert!(actions.to_peer.is_empty());
    assert_eq!(packets(&actions.to_dispatcher), vec![b"/close/6/".to_vec()]);
    assert!(actions.batches.is_empty());
    assert_eq!(session.phase(), Phase::Closed);

    let mut silent = connected(7);
    let actions = silent.on_event(None);
    assert!(actions.to_peer.is_empty());
    assert_eq!(packets(&actions.to_dispatcher), vec![b"/close/7/".to_vec()]);
    assert_eq!(silent.phase(), Phase::Closed);
    let actions = silent.on_event(None);
    assert!(actions.to_peer.is_empty() && actions.to_dispatcher.is_empty());

    let mut pending = LrcpSession::new(SessionId(8));
    let actions = pending.on_event(Some(Message::new_ack(SessionId(8), 0)));
    assert_eq!(packets(&actions.to_dispatcher), vec![b"/close/8/".to_vec()]);
}

#[test]
fn a_session_that_is_asked_to_end_answers_the_peer() {
    let mut session = connected(6);
    let actions = session.on_event(Some(Message::new_close(SessionId(6))));
    assert_eq!(packets(&actions.to_peer), vec![b"/close/6/".to_vec()]);
    assert!(actions.to_dispatcher.is_empty());
    assert_eq!(session.phase(), Phase::Closed);
    let mut pending = LrcpSession::new(SessionId(8));
    let actions = pending.on_event(Some(Message::new_close(SessionId(8))));
    assert_eq!(packets(&actions.to_peer), vec![b"/close/8/".to_vec()]);
    assert!(actions.to_dispatcher.is_empty());
}

#[test]
fn unacknowledged_chunks_are_sent_again_as_they_were() {
    let batch = vec![data(1, 0, b"aa/"), data(1, 3, b"bb\\"), data(1, 6, b"cc\n")];
    let first = packets(&batch);
    assert_eq!(retransmit(&batch, 0), first);
    assert_eq!(retransmit(&batch, 0), first);
    assert_eq!(retransmit(&batch, 1), first[1..].to_vec());
    assert_eq!(retransmit(&batch, 3), first[1..].to_vec());
    assert_eq!(retransmit(&batch, 6), first[2..].to_vec());
    assert_eq!(retransmit(&batch, 7), Vec::<Vec<u8>>::new());
    assert_eq!(retransmit(&batch, 9), Vec::<Vec<u8>>::new());
    let mixed = vec![Message::new_ack(SessionId(1), 0), data(1, 5, b"x")];
    assert_eq!(retransmit(&mixed, 5), vec![b"/data/1/5/x/".to_vec()]);
    assert!(retransmit(&Vec::new(), 0).is_empty());
}

#[test]
fn only_connect_opens_a_session() {
    let mut sessions: Sessions<u16> = Sessions::new();
    assert_eq!(sessions.len(), 0);
    for bytes in [&b"/data/5/0/x/"[..], b"/ack/5/0/", b"/close/5/"] {
        let message = Message::parse(bytes).unwrap();
        assert!(matches!(handle_receive_client_packet(&message, &mut sessions), Route::Unknown));
        assert!(!sessions.contains(5));
    }
    let connect = Message::parse(b"/connect/5/").unwrap();
    assert!(matches!(handle_receive_client_packet(&connect, &mut sessions), Route::Open));
    assert!(!sessions.contains(5));
    assert!(sessions.insert(5, 4000));
    assert!(sessions.contains(5));
    assert!(matches!(handle_receive_client_packet(&connect, &mut sessions), Route::Ignore));
    assert!(!sessions.insert(5, 4001));
    let ack = Message::parse(b"/ack/5/0/").unwrap();
    assert!(matches!(handle_receive_client_packet(&ack, &mut sessions), Route::Deliver(&4000)));
    assert_eq!(sessions.len(), 1);
    let other = Message::parse(b"/ack/6/0/").unwrap();
    assert!(matches!(handle_receive_client_packet(&other, &mut sessions), Route::Unknown));
    let close = Message::parse(b"/close/5/").unwrap();
    assert!(matches!(handle_receive_client_packet(&close, &mut sessions), Route::Last(4000)));
    assert_eq!(sessions.len(), 0);
    assert!(matches!(handle_receive_client_packet(&close, &mut sessions), Route::Unknown));
}

#[test]
fn outgoing_messages_go_to_open_sessions() {
    let mut sessions: Sessions<u16> = Sessions::new();
    let ack = Message::new_ack(SessionId(5), 3);
    assert!(matches!(handle_receive_internal_packet(&ack, &mut sessions), Outbound::Unknown));
    sessions.insert(5, 4000);
    match handle_receive_internal_packet(&ack, &mut sessions) {
        Outbound::Send { to, datagram } => {
            assert_eq!(*to, 4000);
            assert_eq!(datagram, b"/ack/5/3/".to_vec());
        }
        _ => panic!("the session is open"),
    }
    assert!(sessions.contains(5));
    match handle_receive_internal_packet(&Message::new_close(SessionId(5)), &mut sessions) {
        Outbound::SendLast { peer, datagram } => {
            assert_eq!(peer, 4000);
            assert_eq!(datagram, b"/close/5/".to_vec());
        }
        _ => panic!("the session is open"),
    }
    assert!(!sessions.contains(5));
    assert!(matches!(
        handle_receive_internal_packet(&Message::new_close(SessionId(5)), &mut sessions),
        Outbound::Unknown
    ));
}
