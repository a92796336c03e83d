use redis_proxy::protocol::{RedisCommand, RedisProtocolParser};

#[test]
fn test_parse_auth_array_command() {
    let mut parser = RedisProtocolParser::new();

    // *2\r\n$4\r\nAUTH\r\n$8\r\npassword\r\n
    let data = b"*2\r\n$4\r\nAUTH\r\n$8\r\npassword\r\n";
    let commands = parser.feed_data(data).unwrap();

    assert_eq!(commands.len(), 1);
    match &commands[0] {
        RedisCommand::Auth { args } => {
            assert_eq!(args.len(), 2);
            assert_eq!(args[0], "AUTH");
            assert_eq!(args[1], "password");
        }
        _ => panic!("Expected AUTH command"),
    }
}

#[test]
fn test_parse_auth_inline_command() {
    let mut parser = RedisProtocolParser::new();

    let data = b"AUTH password\r\n";
    let commands = parser.feed_data(data).unwrap();

    assert_eq!(commands.len(), 1);
    match &commands[0] {
        RedisCommand::Auth { args } => {
            assert_eq!(args.len(), 2);
            assert_eq!(args[0], "AUTH");
            assert_eq!(args[1], "password");
        }
        _ => panic!("Expected AUTH command"),
    }
}

#[test]
fn test_parse_non_auth_command() {
    let mut parser = RedisProtocolParser::new();

    // *2\r\n$3\r\nGET\r\n$3\r\nkey\r\n
    let data = b"*2\r\n$3\r\nGET\r\n$3\r\nkey\r\n";
    let commands = parser.feed_data(data).unwrap();

    assert_eq!(commands.len(), 1);
    match &commands[0] {
        RedisCommand::Other { raw_data } => {
            assert_eq!(raw_data, data);
        }
        _ => panic!("Expected Other command"),
    }
}

#[test]
fn test_partial_frame_then_remainder() {
    let mut parser = RedisProtocolParser::new();

    // A frame missing its final bytes decodes nothing and is retained.
    let commands = parser.feed_data(b"*2\r\n$4\r\nAUTH\r\n$8\r\npass").unwrap();
    assert_eq!(commands.len(), 0);

    // Feeding the remainder completes exactly one command, nothing lost.
    let commands = parser.feed_data(b"word\r\n").unwrap();
    assert_eq!(commands.len(), 1);
    match &commands[0] {
        RedisCommand::Auth { args } => {
            assert_eq!(args.len(), 2);
            assert_eq!(args[0], "AUTH");
            assert_eq!(args[1], "password");
        }
        _ => panic!("Expected AUTH command"),
    }
}

#[test]
fn test_chunked_equals_whole() {
    // Feeding a stream byte by byte decodes the same commands as feeding it
    // in one call.
    let data = b"*2\r\n$3\r\nGET\r\n$3\r\nkey\r\nAUTH secret\r\n";

    let mut whole = RedisProtocolParser::new();
    let expected = whole.feed_data(data).unwrap();

    let mut chunked = RedisProtocolParser::new();
    let mut collected = Vec::new();
    for byte in data.iter() {
        collected.extend(chunked.feed_data(&[*byte]).unwrap());
    }

    assert_eq!(expected.len(), 2);
    assert_eq!(collected.len(), expected.len());
    for (a, b) in collected.iter().zip(expected.iter()) {
        match (a, b) {
            (RedisCommand::Auth { args: x }, RedisCommand::Auth { args: y }) => {
                assert_eq!(x, y);
            }
            (RedisCommand::Other { raw_data: x }, RedisCommand::Other { raw_data: y }) => {
                assert_eq!(x, y);
            }
            _ => panic!("command kinds differ between chunked and whole feeds"),
        }
    }
}

#[test]
fn test_malformed_frame_resyncs() {
    let mut parser = RedisProtocolParser::new();

    // The array frame is malformed (`%` where a `$` marker must stand); the
    // decoder skips forward and still finds the valid frame further on.
    let data = b"*2\r\n%bad\r\n*1\r\n$4\r\nPING\r\n";
    let commands = parser.feed_data(data).unwrap();

    assert_eq!(commands.len(), 3);
    match &commands[2] {
        RedisCommand::Other { raw_data } => {
            assert_eq!(raw_data.as_slice(), b"*1\r\n$4\r\nPING\r\n");
        }
        _ => panic!("Expected Other command"),
    }
}

#[test]
fn test_auth_detected_case_insensitively() {
    let mut parser = RedisProtocolParser::new();

    let commands = parser.feed_data(b"auth pw\r\n").unwrap();
    assert_eq!(commands.len(), 1);
    match &commands[0] {
        RedisCommand::Auth { args } => {
            assert_eq!(args[0], "auth");
            assert_eq!(args[1], "pw");
        }
        _ => panic!("Expected AUTH command"),
    }
}

#[test]
fn test_negative_length_is_malformed() {
    let mut parser = RedisProtocolParser::new();

    // A negative element count cannot start a frame; the decoder resyncs
    // byte by byte, reading the remains as inline frames.
    let commands = parser.feed_data(b"*-1\r\n").unwrap();
    assert_eq!(commands.len(), 1);
    match &commands[0] {
        RedisCommand::Other { raw_data } => {
            assert_eq!(raw_data.as_slice(), b"-1\r\n");
        }
        _ => panic!("Expected Other command"),
    }
}

#[test]
fn test_two_frames_in_one_chunk() {
    let mut parser = RedisProtocolParser::new();

    let data = b"*2\r\n$4\r\nAUTH\r\n$8\r\npassword\r\n*2\r\n$3\r\nGET\r\n$3\r\nkey\r\n";
    let commands = parser.feed_data(data).unwrap();

    assert_eq!(commands.len(), 2);
    assert!(matches!(&commands[0], RedisCommand::Auth { .. }));
    match &commands[1] {
        RedisCommand::Other { raw_data } => {
            assert_eq!(raw_data.as_slice(), b"*2\r\n$3\r\nGET\r\n$3\r\nkey\r\n");
        }
        _ => panic!("Expected Other command"),
    }
}

#[test]
fn test_clear_drops_buffered_bytes() {
    let mut parser = RedisProtocolParser::new();

    let commands = parser.feed_data(b"*2\r\n$4\r\nAUTH").unwrap();
    assert_eq!(commands.len(), 0);

    parser.clear();

    // The partial frame is gone: the next bytes decode on their own.
    let commands = parser.feed_data(b"PING\r\n").unwrap();
    assert_eq!(commands.len(), 1);
    match &commands[0] {
        RedisCommand::Other { raw_data } => {
            assert_eq!(raw_data.as_slice(), b"PING\r\n");
        }
        _ => panic!("Expected Other command"),
    }
}

#[test]
fn test_empty_chunk_decodes_nothing() {
    let mut parser = RedisProtocolParser::new();
    let commands = parser.feed_data(b"").unwrap();
    assert_eq!(commands.len(), 0);
}

#[test]
fn test_default_parser_is_empty() {
    let mut parser = RedisProtocolParser::default();
    let commands = parser.feed_data(b"PING\r\n").unwrap();
    assert_eq!(commands.len(), 1);
    assert!(matches!(&commands[0], RedisCommand::Other { .. }));
}
