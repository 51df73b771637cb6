use protohackers_rs::insecure_sockets::protocol::{
    parse_cipher_spec, Cipher, CipherError, Operation,
};
use protohackers_rs::insecure_sockets::server::{self, RequestError, Server};
use protohackers_rs::insecure_sockets::session::{
    handle_message, parse_message, Job, JobError, Session,
};

const REQUESTS: [&str; 2] = [
    "55x life-size bear on a string,87x giant plastic mobile phone with carry case,40x pocket-size metal quadcopter simulator,34x soft rubber inflatable quadcopter with carry case,100x pocket-size cuddly pony toy\n",
    "21x small inflatable cow simulator,52x pocket-size plastic inflatable motorcycle toy,85x giant duck-billed platypus with remote-controlled train simulator,23x soft rubber pony,76x small soft rubber goat\n",
];

const RESPONSES: [&str; 2] = [
    "100x pocket-size cuddly pony toy\n",
    "85x giant duck-billed platypus with remote-controlled train simulator\n",
];

#[test]
fn parse_cipher_spec_simple() {
    let bytes = vec![0x02, 0x01, 0x01, 0x00];
    let operations = parse_cipher_spec(&bytes).unwrap();
    assert_eq!(
        operations,
        vec![
            Operation::Xor { n: 0x01 },
            Operation::ReverseBits,
            Operation::CipherEnd
        ]
    );
}

#[test]
fn parse_cipher_spec_example() {
    let bytes = vec![0x02, 0x7b, 0x05, 0x01, 0x00];
    let operations = parse_cipher_spec(&bytes).unwrap();
    assert_eq!(
        operations,
        vec![
            Operation::Xor { n: 123 },
            Operation::AddPosition,
            Operation::ReverseBits,
            Operation::CipherEnd
        ]
    );
}

#[test]
fn encode_simple_message() {
    let mut client = Cipher::new(&[0x02, 0x01, 0x01, 0x00]).unwrap();
    let message = "hello";

    let encoded = message
        .as_bytes()
        .iter()
        .map(|byte| client.encode_byte(*byte))
        .collect::<Vec<u8>>();

    assert_eq!(encoded, vec![0x96, 0x26, 0xb6, 0xb6, 0x76]);
}

#[test]
fn encode_medium_message() {
    let mut client = Cipher::new(&[0x05, 0x05, 0x00]).unwrap();
    let message = "hello";

    let encoded = message
        .as_bytes()
        .iter()
        .map(|byte| client.encode_byte(*byte))
        .collect::<Vec<u8>>();

    assert_eq!(encoded, vec![0x68, 0x67, 0x70, 0x72, 0x77]);
}

#[test]
fn example_session() {
    let mut client = Cipher::new(&[0x02, 0x01, 0x00]).unwrap();
    let mut server = Cipher::new(&[0x02, 0x01, 0x00]).unwrap();

    for i in 0..REQUESTS.len() {
        let mut encoded = client.encode(REQUESTS[i].as_bytes()).unwrap();
        let mut decoded = server.encode(&encoded).unwrap();
        assert_eq!(decoded, REQUESTS[i].as_bytes());

        encoded = server.encode(RESPONSES[i].as_bytes()).unwrap();
        decoded = client.encode(&encoded).unwrap();
        assert_eq!(decoded, RESPONSES[i].as_bytes());
    }
}

#[test]
fn complex_cipher() {
    let cipher_bytes = [2, 110, 4, 215, 3, 1, 4, 5, 1, 0];

    let mut client_cipher = Cipher::new(&cipher_bytes).unwrap();
    let mut server_cipher = Cipher::new(&cipher_bytes).unwrap();

    assert_eq!(
        client_cipher.cipher,
        vec![
            Operation::Xor { n: 110 },
            Operation::Add { n: 215 },
            Operation::XorPosition,
            Operation::ReverseBits,
            Operation::Add { n: 5 },
            Operation::ReverseBits,
            Operation::CipherEnd,
        ],
    );

    for i in 0..REQUESTS.len() {
        let mut encoded = client_cipher.encode(REQUESTS[i].as_bytes()).unwrap();
        let mut decoded = server_cipher.decode(&encoded).unwrap();
        assert_eq!(decoded, REQUESTS[i].as_bytes());

        encoded = server_cipher.encode(RESPONSES[i].as_bytes()).unwrap();
        decoded = client_cipher.decode(&encoded).unwrap();
        assert_eq!(decoded, RESPONSES[i].as_bytes());
    }
}

#[test]
fn test_applying_operations() {
    let message = b"hello";

    for operation in &[
        Operation::ReverseBits,
        Operation::Xor { n: 0x01 },
        Operation::XorPosition,
        Operation::Add { n: 0x01 },
        Operation::Add { n: 0x20 },
        Operation::Add { n: 0xFF },
        Operation::Add { n: 0xf0 },
        Operation::AddPosition,
        Operation::CipherEnd,
    ] {
        let operation = operation.clone();
        let mut cipher = Cipher {
            cipher: vec![operation],
            incoming_position: 0,
            outgoing_position: 0,
        };

        let encoded = message
            .iter()
            .map(|byte| cipher.encode_byte(*byte))
            .collect::<Vec<u8>>();

        let decoded = encoded
            .iter()
            .map(|byte| cipher.decode_byte(*byte))
            .collect::<Vec<u8>>();

        assert_eq!(decoded, message);
    }
}

#[test]
fn server_test_parse_message() {
    let message = "10x toy car,15x dog on a string,4x inflatable motorcycle";
    let jobs = server::parse_message(message).unwrap();

    assert!(jobs.len() == 3);
    assert!(jobs[0].copies == 10);
    assert!(jobs[0].toy == "toy car");
    assert!(jobs[1].copies == 15);
    assert!(jobs[1].toy == "dog on a string");
    assert!(jobs[2].copies == 4);
    assert!(jobs[2].toy == "inflatable motorcycle");
}

#[test]
fn session_test_parse_message() {
    let message = "10x toy car,15x dog on a string,4x inflatable motorcycle";
    let jobs = parse_message(message).unwrap();

    assert!(jobs.len() == 3);
    assert!(jobs[0].copies == 10);
    assert!(jobs[0].toy == "toy car");
    assert!(jobs[1].copies == 15);
    assert!(jobs[1].toy == "dog on a string");
    assert!(jobs[2].copies == 4);
    assert!(jobs[2].toy == "inflatable motorcycle");
}

#[test]
fn test_parse_message2() {
    let message = "10x toy car,15x dog on a string,4x inflatable motorcycle,95x test toy";
    let jobs = parse_message(message).unwrap();

    assert!(jobs.len() == 4);
    assert!(jobs[0].copies == 10);
    assert!(jobs[0].toy == "toy car");
    assert!(jobs[1].copies == 15);
    assert!(jobs[1].toy == "dog on a string");
    assert!(jobs[2].copies == 4);
    assert!(jobs[2].toy == "inflatable motorcycle");
    assert!(jobs[3].copies == 95);
    assert!(jobs[3].toy == "test toy");
}

#[test]
fn test_handle_message() {
    let message = "10x toy car,15x dog on a string,4x inflatable motorcycle";
    let response = handle_message(message).unwrap();
    assert_eq!(response, "15x dog on a string");
}

#[test]
fn cipher_specification_must_start_with_an_operation() {
    assert_eq!(parse_cipher_spec(&[]).unwrap_err(), CipherError::Specification);
    assert_eq!(parse_cipher_spec(&[0x06]).unwrap_err(), CipherError::Specification);
    assert_eq!(parse_cipher_spec(&[0x02]).unwrap_err(), CipherError::Specification);
    assert!(matches!(Cipher::new(&[0x04]), Err(CipherError::Specification)));
}

#[test]
fn cipher_specification_stops_at_what_is_no_operation() {
    assert_eq!(
        parse_cipher_spec(&[0x01, 0x00, 0x03, 0x04]).unwrap(),
        vec![Operation::ReverseBits, Operation::CipherEnd, Operation::XorPosition]
    );
    assert_eq!(
        parse_cipher_spec(&[0x04, 0x07, 0x09, 0x01]).unwrap(),
        vec![Operation::Add { n: 7 }]
    );
}

#[test]
fn cipher_without_effect_is_refused() {
    let mut cipher = Cipher::new(&[0x00]).unwrap();
    assert_eq!(cipher.encode(b"hello").unwrap_err(), CipherError::NoEffect);
    assert_eq!(cipher.outgoing_position, 5);
    assert_eq!(cipher.decode(b"hi").unwrap_err(), CipherError::NoEffect);
    assert_eq!(cipher.incoming_position, 2);
    let mut twice = Cipher::new(&[0x02, 0x05, 0x02, 0x05, 0x00]).unwrap();
    assert_eq!(twice.encode(b"a").unwrap_err(), CipherError::NoEffect);
    assert_eq!(twice.encode(b"").unwrap_err(), CipherError::NoEffect);
}

#[test]
fn cipher_positions_count_and_wrap() {
    let mut cipher = Cipher::new(&[0x05, 0x00]).unwrap();
    cipher.with_position(7, 3);
    assert_eq!(cipher.incoming_position, 7);
    assert_eq!(cipher.outgoing_position, 3);
    assert_eq!(cipher.encode_byte(10), 13);
    assert_eq!(cipher.outgoing_position, 4);
    assert_eq!(cipher.decode_byte(10), 3);
    assert_eq!(cipher.incoming_position, 8);
    cipher.with_position(usize::MAX, usize::MAX);
    assert_eq!(cipher.encode_byte(1), 0);
    assert_eq!(cipher.outgoing_position, 0);
    assert_eq!(cipher.decode_byte(0), 1);
    assert_eq!(cipher.incoming_position, 0);
    cipher.with_position(0, 256);
    assert_eq!(cipher.encode_byte(200), 200);
    assert_eq!(cipher.encode_byte(255), 0);
}

#[test]
fn reverse_bits_is_the_mirror_of_the_byte() {
    let mut cipher = Cipher::new(&[0x01, 0x00]).unwrap();
    for byte in 0..=255u8 {
        assert_eq!(cipher.encode_byte(byte), byte.reverse_bits());
        assert_eq!(cipher.decode_byte(byte), byte.reverse_bits());
    }
}

#[test]
fn decoding_undoes_encoding() {
    let mut sender = Cipher::new(&[2, 110, 4, 215, 3, 1, 5, 0]).unwrap();
    let mut receiver = Cipher::new(&[2, 110, 4, 215, 3, 1, 5, 0]).unwrap();
    for round in 0..3u32 {
        for byte in 0..=255u8 {
            let sent = sender.encode_byte(byte);
            assert_eq!(receiver.decode_byte(sent), byte, "round {}", round);
        }
    }
}

#[test]
fn most_wanted_is_the_last_of_the_greatest() {
    assert_eq!(handle_message("3x a,7x b,7x c,1x d").unwrap(), "7x c");
    assert_eq!(handle_message("5x only one").unwrap(), "5x only one");
    assert_eq!(handle_message("007x spy car").unwrap(), "7x spy car");
    assert_eq!(handle_message("2x x y,1x 1x 9").unwrap(), "2x x y");
}

#[test]
fn least_wanted_is_the_first_of_the_fewest() {
    assert_eq!(server::handle_message("3x a,1x b,1x c,7x d").unwrap(), "1x b");
    assert_eq!(server::handle_message("5x only one").unwrap(), "5x only one");
}

#[test]
fn a_request_ends_where_no_job_follows() {
    let jobs = parse_message("10x toy car,garbage,15x dog").unwrap();
    assert_eq!(jobs, vec![Job::new("toy car".to_string(), 10)]);
    let jobs = parse_message("10x toy car,").unwrap();
    assert_eq!(jobs.len(), 1);
    let jobs = server::parse_message("100x pocket-size cuddly pony toy,5x dog").unwrap();
    assert_eq!(jobs, vec![Job::new("pocket".to_string(), 100)]);
    let jobs = server::parse_message("1x a\tb c\n").unwrap();
    assert_eq!(jobs, vec![Job::new("a\tb c".to_string(), 1)]);
}

#[test]
fn a_request_must_start_with_a_job() {
    assert_eq!(parse_message("").unwrap_err(), JobError::Syntax);
    assert_eq!(parse_message("x toy").unwrap_err(), JobError::Syntax);
    assert_eq!(parse_message("10 toy").unwrap_err(), JobError::Syntax);
    assert_eq!(parse_message("10x").unwrap_err(), JobError::Syntax);
    assert_eq!(parse_message("10x ").unwrap_err(), JobError::Syntax);
    assert_eq!(parse_message("10xtoy").unwrap_err(), JobError::Syntax);
    assert_eq!(parse_message("10x ,").unwrap_err(), JobError::Syntax);
    assert_eq!(handle_message("toy car").unwrap_err(), JobError::Syntax);
    assert_eq!(server::parse_message("10x 9").unwrap_err(), JobError::Syntax);
    assert_eq!(server::handle_message(",").unwrap_err(), JobError::Syntax);
}

#[test]
fn too_many_copies_are_refused() {
    let huge = "99999999999999999999999999x toy";
    assert_eq!(parse_message(huge).unwrap_err(), JobError::TooManyCopies);
    let later = "1x toy,99999999999999999999999999x car";
    assert_eq!(parse_message(later).unwrap_err(), JobError::TooManyCopies);
    assert_eq!(handle_message(later).unwrap_err(), JobError::TooManyCopies);
    let unread = "1x toy,zz,99999999999999999999999999x car";
    assert_eq!(parse_message(unread).unwrap().len(), 1);
    let most = format!("{}x toy", usize::MAX);
    assert_eq!(parse_message(&most).unwrap()[0].copies, usize::MAX);
}

#[test]
fn a_job_reads_as_copies_and_toy() {
    assert_eq!(Job::new("dog on a string".to_string(), 15).to_string(), "15x dog on a string");
    assert_eq!(Job::new("".to_string(), 0).to_string(), "0x ");
    assert_eq!(
        Job::new("car".to_string(), usize::MAX).to_string(),
        format!("{}x car", usize::MAX)
    );
}

#[test]
fn a_session_reads_bytes_into_lines() {
    let mut session = Session::new(&[0x02, 0x01, 0x00]).unwrap();
    let mut lines = Vec::new();
    for byte in b"4x dog,5x car\n3x rat\n".iter() {
        if let Some(line) = session.read_line(byte ^ 1) {
            lines.push(line);
        }
    }
    assert_eq!(lines, vec!["4x dog,5x car".to_string(), "3x rat".to_string()]);
    assert_eq!(session.line, "");
    assert_eq!(session.cipher.incoming_position, 21);
    assert!(session.read_line(0xe8).is_none());
    assert_eq!(session.line, "\u{e9}");
}

#[test]
fn a_session_writes_lines_with_their_newline() {
    let mut session = Session::new(&[0x02, 0x01, 0x00]).unwrap();
    let bytes = session.write_line("5x car".to_string()).unwrap();
    let expected: Vec<u8> = b"5x car\n".iter().map(|b| b ^ 1).collect();
    assert_eq!(bytes, expected);
    assert_eq!(session.cipher.outgoing_position, 7);
    let mut idle = Session::new(&[0x00]).unwrap();
    assert_eq!(idle.write_line("5x car".to_string()).unwrap_err(), CipherError::NoEffect);
    assert!(matches!(Session::new(&[0x09]), Err(CipherError::Specification)));
}

#[test]
fn a_server_answers_requests_behind_the_cipher() {
    let mut server = Server::new();
    assert!(server.client.is_none());
    assert_eq!(server.start(&[0x07]).unwrap_err(), CipherError::Specification);
    assert!(server.client.is_none());
    server.start(&[0x02, 0x01, 0x00]).unwrap();
    let request: Vec<u8> = b"10x toy car,15x dog on a string,4x inflatable motorcycle\n"
        .iter()
        .map(|b| b ^ 1)
        .collect();
    let response = server.handle_request(&request).unwrap();
    let expected: Vec<u8> = b"4x inflatable motorcycle".iter().map(|b| b ^ 1).collect();
    assert_eq!(response, expected);
    let client = server.client.as_ref().unwrap();
    assert_eq!(client.incoming_position, request.len());
    assert_eq!(client.outgoing_position, expected.len());
    let nonsense: Vec<u8> = b"hello\n".iter().map(|b| b ^ 1).collect();
    assert_eq!(
        server.handle_request(&nonsense).unwrap_err(),
        RequestError::Job(JobError::Syntax)
    );
    let mut idle = Server::new();
    idle.start(&[0x00]).unwrap();
    assert_eq!(
        idle.handle_request(b"1x a").unwrap_err(),
        RequestError::Cipher(CipherError::NoEffect)
    );
}
