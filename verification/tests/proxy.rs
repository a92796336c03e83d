use redis_proxy::config::{Args, Config};
use redis_proxy::protocol::RedisProtocolParser;
use redis_proxy::proxy::{
    auth_reply_ok, auth_success_response, build_auth_command, dispatch_commands,
    needs_backend_auth, process_client_data, RedisProxy,
};

fn no_args() -> Args {
    Args {
        config: None,
        redis_host: None,
        redis_port: None,
        redis_user: None,
        redis_password: None,
        redis_ssl: false,
        listen: None,
    }
}

#[test]
fn test_intercepted_auth_never_reaches_backend() {
    // A client authentication attempt is not forwarded; the fixed success
    // reply is queued for the client instead.
    let mut parser = RedisProtocolParser::new();
    let dispatch = process_client_data(&mut parser, b"AUTH secret\r\n");

    assert_eq!(dispatch.to_backend.len(), 0);
    assert_eq!(dispatch.to_client.len(), 1);
    assert_eq!(dispatch.to_client[0].as_slice(), b"+OK\r\n");
}

#[test]
fn test_backend_auth_frame_password_only() {
    let frame = build_auth_command(b"", b"secret");
    assert_eq!(frame.as_slice(), b"*2\r\n$4\r\nAUTH\r\n$6\r\nsecret\r\n".as_slice());
}

#[test]
fn test_backend_auth_frame_with_user() {
    let frame = build_auth_command(b"admin", b"pw");
    assert_eq!(
        frame.as_slice(),
        b"*3\r\n$4\r\nAUTH\r\n$5\r\nadmin\r\n$2\r\npw\r\n".as_slice()
    );
}

#[test]
fn test_auth_reply_prefix_decides_success() {
    assert!(auth_reply_ok(b"+OK\r\n"));
    assert!(auth_reply_ok(b"+OK extra bytes"));
    assert!(!auth_reply_ok(b"-ERR invalid password\r\n"));
    assert!(!auth_reply_ok(b"+O"));
    assert!(!auth_reply_ok(b""));
}

#[test]
fn test_no_password_skips_handshake() {
    // With no backend password configured the handshake is skipped and the
    // first client bytes go to the backend untouched.
    let config = Config::default();
    assert!(!needs_backend_auth(&config));

    let mut parser = RedisProtocolParser::new();
    let data = b"*2\r\n$3\r\nGET\r\n$3\r\nkey\r\n";
    let dispatch = process_client_data(&mut parser, data);

    assert_eq!(dispatch.to_client.len(), 0);
    assert_eq!(dispatch.to_backend.len(), 1);
    assert_eq!(dispatch.to_backend[0].as_slice(), data.as_slice());
}

#[test]
fn test_configured_password_requires_handshake() {
    let config = Config::default().apply_args(Args {
        redis_password: Some("secret".to_string()),
        ..no_args()
    });
    assert!(needs_backend_auth(&config));
    assert_eq!(config.redis.password, "secret");
}

#[test]
fn test_mixed_commands_keep_order() {
    let mut parser = RedisProtocolParser::new();
    let data = b"*2\r\n$3\r\nGET\r\n$1\r\na\r\nAUTH pw\r\n*2\r\n$3\r\nGET\r\n$1\r\nb\r\n";
    let dispatch = process_client_data(&mut parser, data);

    assert_eq!(dispatch.to_backend.len(), 2);
    assert_eq!(dispatch.to_backend[0].as_slice(), b"*2\r\n$3\r\nGET\r\n$1\r\na\r\n".as_slice());
    assert_eq!(dispatch.to_backend[1].as_slice(), b"*2\r\n$3\r\nGET\r\n$1\r\nb\r\n".as_slice());
    assert_eq!(dispatch.to_client.len(), 1);
    assert_eq!(dispatch.to_client[0].as_slice(), b"+OK\r\n");
}

#[test]
fn test_dispatch_of_decoded_commands() {
    let mut parser = RedisProtocolParser::new();
    let commands = parser.feed_data(b"AUTH a\r\nAUTH b\r\nPING\r\n").unwrap();
    let dispatch = dispatch_commands(&commands);

    assert_eq!(dispatch.to_client.len(), 2);
    for reply in dispatch.to_client.iter() {
        assert_eq!(reply.as_slice(), b"+OK\r\n");
    }
    assert_eq!(dispatch.to_backend.len(), 1);
    assert_eq!(dispatch.to_backend[0].as_slice(), b"PING\r\n");
}

#[test]
fn test_auth_success_response_bytes() {
    assert_eq!(auth_success_response().as_slice(), b"+OK\r\n");
}

#[test]
fn test_default_config_addresses() {
    let config = Config::default();
    assert_eq!(config.redis.host, "127.0.0.1");
    assert_eq!(config.redis.port, 6379);
    assert_eq!(config.redis.user, "");
    assert_eq!(config.redis.password, "");
    assert!(!config.redis.ssl);
    assert_eq!(config.proxy.listen, "127.0.0.1:6379");
    assert_eq!(config.redis_address(), "127.0.0.1:6379");
}

#[test]
fn test_apply_args_overrides() {
    let config = Config::default().apply_args(Args {
        config: None,
        redis_host: Some("redis.internal".to_string()),
        redis_port: Some(6380),
        redis_user: Some("svc".to_string()),
        redis_password: Some("hunter2".to_string()),
        redis_ssl: true,
        listen: Some("0.0.0.0:7000".to_string()),
    });
    assert_eq!(config.redis.host, "redis.internal");
    assert_eq!(config.redis.port, 6380);
    assert_eq!(config.redis.user, "svc");
    assert_eq!(config.redis.password, "hunter2");
    assert!(config.redis.ssl);
    assert_eq!(config.proxy.listen, "0.0.0.0:7000");
    assert_eq!(config.redis_address(), "redis.internal:6380");
}

#[test]
fn test_proxy_holds_config() {
    let config = Config::default().apply_args(Args {
        redis_port: Some(7001),
        ..no_args()
    });
    let proxy = RedisProxy::new(config);
    assert_eq!(proxy.config().redis.port, 7001);
    assert_eq!(proxy.config().redis_address(), "127.0.0.1:7001");
}
