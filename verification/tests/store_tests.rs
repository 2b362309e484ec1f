use redis_rust::traits::{DefaultLogger, FileLogger, RedisLogger};
use redis_rust::types::{RedisOp, RedisRequest, RedisType};
use redis_rust::Redis;

fn s(t: &str) -> RedisType {
    RedisType::String(t.to_string())
}

#[test]
fn add_then_get() {
    let mut redis: Redis<DefaultLogger> = Redis::new();
    redis.add(s("a"), RedisType::Integer(1)).unwrap();
    assert_eq!(redis.get(s("a")), RedisType::Integer(1));
}

#[test]
fn get_absent_is_null() {
    let mut redis: Redis<DefaultLogger> = Redis::new();
    assert_eq!(redis.get(s("nothing")), RedisType::Null);
}

#[test]
fn capacity_two_evicts_oldest() {
    let mut redis: Redis<DefaultLogger> = Redis::with_capacity(2);
    redis.add(s("a"), RedisType::Integer(1)).unwrap();
    redis.add(s("b"), RedisType::Integer(2)).unwrap();
    redis.add(s("c"), RedisType::Integer(3)).unwrap();
    assert_eq!(redis.get(s("a")), RedisType::Null);
    assert_eq!(redis.get(s("b")), RedisType::Integer(2));
    assert_eq!(redis.get(s("c")), RedisType::Integer(3));
}

#[test]
fn reinsert_moves_key_to_back() {
    let mut redis: Redis<DefaultLogger> = Redis::with_capacity(2);
    redis.add(s("a"), RedisType::Integer(1)).unwrap();
    redis.add(s("b"), RedisType::Integer(2)).unwrap();
    redis.add(s("a"), RedisType::Integer(9)).unwrap();
    redis.add(s("c"), RedisType::Integer(3)).unwrap();
    // b was the oldest once a moved to the back, so b went out
    assert_eq!(redis.get(s("b")), RedisType::Null);
    assert_eq!(redis.get(s("a")), RedisType::Integer(9));
    assert_eq!(redis.get(s("c")), RedisType::Integer(3));
}

#[test]
fn delete_removes_binding_and_order_slot() {
    let mut redis: Redis<DefaultLogger> = Redis::with_capacity(2);
    redis.add(s("a"), RedisType::Integer(1)).unwrap();
    redis.add(s("b"), RedisType::Integer(2)).unwrap();
    redis.delete(s("a")).unwrap();
    redis.add(s("c"), RedisType::Integer(3)).unwrap();
    // the store had room again: nothing was evicted
    assert_eq!(redis.get(s("b")), RedisType::Integer(2));
    assert_eq!(redis.get(s("c")), RedisType::Integer(3));
    assert_eq!(redis.get(s("a")), RedisType::Null);
}

#[test]
fn delete_absent_is_a_noop_ok() {
    let mut redis: Redis<DefaultLogger> = Redis::new();
    assert!(redis.delete(s("ghost")).is_ok());
    redis.add(s("a"), RedisType::Integer(1)).unwrap();
    assert!(redis.delete(s("ghost")).is_ok());
    assert_eq!(redis.get(s("a")), RedisType::Integer(1));
}

#[test]
fn ping_returns_pong() {
    let redis: Redis<DefaultLogger> = Redis::new();
    assert_eq!(redis.ping(), RedisType::String("PONG".to_string()));
}

#[test]
fn ping_never_reaches_the_logger() {
    let mut redis: Redis<FileLogger> =
        Redis::with_capacity_and_logger(10, FileLogger::new());
    let _ = redis.ping();
    let _ = redis.ping();
    assert_eq!(redis.logger().len(), 0);
    redis.add(s("a"), RedisType::Integer(1)).unwrap();
    assert_eq!(redis.logger().len(), 1);
    let _ = redis.ping();
    assert_eq!(redis.logger().len(), 1);
}

#[test]
fn logger_records_operations_in_order() {
    let mut logger = FileLogger::new();
    logger.log(RedisOp::Add, Some(s("k")), Some(s("v"))).unwrap();
    logger.log(RedisOp::Get, Some(s("k")), None).unwrap();
    let entries = logger.take_entries();
    assert_eq!(entries.len(), 2);
    assert_eq!(entries[0].0, RedisOp::Add);
    assert_eq!(entries[1].0, RedisOp::Get);
    assert_eq!(logger.len(), 0);
}

#[test]
fn dispatch_add_and_get() {
    let mut redis: Redis<DefaultLogger> = Redis::new();
    let r = redis.handle_command(RedisRequest::new(
        RedisOp::Add,
        Some(s("a")),
        Some(RedisType::Integer(1)),
    ));
    assert_eq!(r, RedisType::Okay);
    let r = redis.handle_command(RedisRequest::new(RedisOp::Get, Some(s("a")), None));
    assert_eq!(r, RedisType::Integer(1));
}

#[test]
fn dispatch_missing_key_and_value() {
    let mut redis: Redis<DefaultLogger> = Redis::new();
    let r = redis.handle_command(RedisRequest::new(RedisOp::Add, None, None));
    assert_eq!(r, RedisType::Error("Key is not provided".to_string()));
    let r = redis.handle_command(RedisRequest::new(RedisOp::Add, Some(s("a")), None));
    assert_eq!(r, RedisType::Error("Value is not provided".to_string()));
    let r = redis.handle_command(RedisRequest::new(RedisOp::Get, None, None));
    assert_eq!(r, RedisType::Error("Key is not provided".to_string()));
    let r = redis.handle_command(RedisRequest::new(RedisOp::Delete, None, None));
    assert_eq!(r, RedisType::Error("Key is not provided".to_string()));
}

#[test]
fn dispatch_delete_absent_returns_okay() {
    let mut redis: Redis<DefaultLogger> = Redis::new();
    let r = redis.handle_command(RedisRequest::new(RedisOp::Delete, Some(s("ghost")), None));
    assert_eq!(r, RedisType::Okay);
}

#[test]
fn dispatch_error_op_is_unsupported() {
    let mut redis: Redis<DefaultLogger> = Redis::new();
    let r = redis.handle_command(RedisRequest::new(RedisOp::Error, Some(s("x")), None));
    assert_eq!(r, RedisType::Error("Unsupported operation".to_string()));
}

#[test]
fn dispatch_ping() {
    let mut redis: Redis<DefaultLogger> = Redis::new();
    let r = redis.handle_command(RedisRequest::new(RedisOp::Ping, None, None));
    assert_eq!(r, RedisType::String("PONG".to_string()));
}

#[test]
fn full_line_from_wire_to_wire() {
    let mut redis: Redis<DefaultLogger> = Redis::with_capacity(100);
    let q = RedisRequest::parse("ADD\r\n+name\r\n+verus".to_string()).unwrap();
    assert_eq!(redis.handle_command(q).as_string_formatted(), "+OK\r\n");
    let q = RedisRequest::parse("GET\r\n+name".to_string()).unwrap();
    assert_eq!(redis.handle_command(q).as_string_formatted(), "+verus\r\n");
}
