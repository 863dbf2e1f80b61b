use resp_kv::command::{classify_token, redis_command_parser, RedisCommand};

#[test]
fn test_redis_command_parser() {
    assert_eq!(redis_command_parser("PING".to_string()), Some(RedisCommand::PING));
    assert_eq!(redis_command_parser("SET".to_string()), Some(RedisCommand::SET));
    assert_eq!(redis_command_parser("GET".to_string()), Some(RedisCommand::GET));
    assert_eq!(redis_command_parser("ECHO".to_string()), Some(RedisCommand::ECHO));
    assert_eq!(redis_command_parser("unknown".to_string()), None);
}

#[test]
fn classify_is_case_insensitive() {
    assert_eq!(redis_command_parser("PiNg".to_string()), Some(RedisCommand::PING));
    assert_eq!(redis_command_parser("ping".to_string()), Some(RedisCommand::PING));
    assert_eq!(redis_command_parser("sEt".to_string()), Some(RedisCommand::SET));
    assert_eq!(redis_command_parser("gEt".to_string()), Some(RedisCommand::GET));
    assert_eq!(redis_command_parser("echo".to_string()), Some(RedisCommand::ECHO));
    assert_eq!(redis_command_parser("InFo".to_string()), Some(RedisCommand::INFO));
}

#[test]
fn classify_rejects_near_misses() {
    assert_eq!(redis_command_parser("pingg".to_string()), None);
    assert_eq!(redis_command_parser("pin".to_string()), None);
    assert_eq!(redis_command_parser("".to_string()), None);
    assert_eq!(redis_command_parser("se t".to_string()), None);
}

#[test]
fn classify_token_works_on_bytes() {
    assert_eq!(classify_token(b"SeT"), Some(RedisCommand::SET));
    assert_eq!(classify_token(b"PING"), Some(RedisCommand::PING));
    assert_eq!(classify_token(b"info"), Some(RedisCommand::INFO));
    assert_eq!(classify_token(b"quit"), None);
    assert_eq!(classify_token(b""), None);
}
