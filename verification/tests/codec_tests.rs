use redis_rust::types::{RedisError, RedisOp, RedisRequest, RedisType};

#[test]
fn serialize_string() {
    let v = RedisType::String("hi".to_string());
    assert_eq!(v.as_string_formatted(), "+hi\r\n");
}

#[test]
fn serialize_integer() {
    assert_eq!(RedisType::Integer(42).as_string_formatted(), ":42\r\n");
    assert_eq!(RedisType::Integer(-7).as_string_formatted(), ":-7\r\n");
    assert_eq!(RedisType::Integer(0).as_string_formatted(), ":0\r\n");
}

#[test]
fn serialize_integer_extremes() {
    assert_eq!(
        RedisType::Integer(i128::MAX).as_string_formatted(),
        format!(":{}\r\n", i128::MAX)
    );
    assert_eq!(
        RedisType::Integer(i128::MIN).as_string_formatted(),
        format!(":{}\r\n", i128::MIN)
    );
}

#[test]
fn serialize_array_doubles_terminators() {
    let v = RedisType::Array(vec![
        RedisType::String("x".to_string()),
        RedisType::Integer(1),
    ]);
    assert_eq!(v.as_string_formatted(), "*2\r\n+x\r\n\r\n:1\r\n\r\n");
}

#[test]
fn serialize_markers() {
    assert_eq!(RedisType::Error("bad".to_string()).as_string_formatted(), "-bad\r\n");
    assert_eq!(RedisType::Null.as_string_formatted(), "$-1\r\n");
    assert_eq!(RedisType::Okay.as_string_formatted(), "+OK\r\n");
    assert_eq!(RedisType::EventChannel(()).as_string_formatted(), "+OK\r\n");
}

#[test]
fn parse_string() {
    let r = RedisType::parse("+hello".to_string()).unwrap();
    assert_eq!(r, RedisType::String("hello".to_string()));
}

#[test]
fn parse_integer() {
    assert_eq!(RedisType::parse(":42".to_string()).unwrap(), RedisType::Integer(42));
    assert_eq!(RedisType::parse(":-13".to_string()).unwrap(), RedisType::Integer(-13));
}

#[test]
fn parse_integer_rejects_garbage() {
    assert!(matches!(
        RedisType::parse(":12x".to_string()),
        Err(RedisError::ParseFailed)
    ));
    assert!(matches!(
        RedisType::parse(":".to_string()),
        Err(RedisError::ParseFailed)
    ));
}

#[test]
fn parse_integer_rejects_overflow() {
    // one past i128::MAX
    assert!(matches!(
        RedisType::parse(":170141183460469231731687303715884105728".to_string()),
        Err(RedisError::ParseFailed)
    ));
    // i128::MIN itself is accepted
    assert_eq!(
        RedisType::parse(format!(":{}", i128::MIN)).unwrap(),
        RedisType::Integer(i128::MIN)
    );
}

#[test]
fn parse_empty_fails() {
    assert!(matches!(
        RedisType::parse(String::new()),
        Err(RedisError::ParseFailed)
    ));
}

#[test]
fn parse_null() {
    assert_eq!(RedisType::parse("$-1".to_string()).unwrap(), RedisType::Null);
}

#[test]
fn parse_error_value() {
    assert_eq!(
        RedisType::parse("-oops".to_string()).unwrap(),
        RedisType::Error("oops".to_string())
    );
}

#[test]
fn parse_unknown_tag() {
    assert_eq!(
        RedisType::parse("zzz".to_string()).unwrap(),
        RedisType::Error("Unknown type: zzz".to_string())
    );
}

#[test]
fn parse_array_two_strings() {
    let r = RedisType::parse("*2\r\n+x\r\n+y\r\n".to_string()).unwrap();
    assert_eq!(
        r,
        RedisType::Array(vec![
            RedisType::String("x".to_string()),
            RedisType::String("y".to_string()),
        ])
    );
}

#[test]
fn parse_array_count_is_advisory() {
    let r = RedisType::parse("*9\r\n+x\r\n".to_string()).unwrap();
    assert_eq!(r, RedisType::Array(vec![RedisType::String("x".to_string())]));
}

#[test]
fn round_trip_scalars() {
    for v in [
        RedisType::String("some text".to_string()),
        RedisType::String(String::new()),
        RedisType::Integer(123456789),
        RedisType::Integer(-1),
        RedisType::Integer(i128::MIN),
        RedisType::Null,
    ] {
        let wire = v.as_string_formatted();
        assert_eq!(RedisType::parse(wire).unwrap(), v);
    }
}

#[test]
fn round_trip_flat_array() {
    let v = RedisType::Array(vec![
        RedisType::String("a".to_string()),
        RedisType::Integer(2),
        RedisType::Null,
        RedisType::String(String::new()),
    ]);
    let wire = v.as_string_formatted();
    assert_eq!(RedisType::parse(wire).unwrap(), v);
}

#[test]
fn request_ping() {
    let q = RedisRequest::parse("PING".to_string()).unwrap();
    assert_eq!(q.op, RedisOp::Ping);
    assert!(q.key.is_none());
    assert!(q.value.is_none());
}

#[test]
fn request_add_with_fields() {
    let q = RedisRequest::parse("ADD\r\n+k\r\n:5".to_string()).unwrap();
    assert_eq!(q.op, RedisOp::Add);
    assert_eq!(q.key, Some(RedisType::String("k".to_string())));
    assert_eq!(q.value, Some(RedisType::Integer(5)));
}

#[test]
fn request_unknown_verb() {
    let q = RedisRequest::parse("FOO".to_string()).unwrap();
    assert_eq!(q.op, RedisOp::Error);
    assert_eq!(q.key, Some(RedisType::Error("Unknown command".to_string())));
    assert!(q.value.is_none());
}

#[test]
fn request_strips_nul_padding() {
    let q = RedisRequest::parse("PING\0\0\0".to_string()).unwrap();
    assert_eq!(q.op, RedisOp::Ping);
}

#[test]
fn request_verbs_are_case_sensitive() {
    let q = RedisRequest::parse("ping".to_string()).unwrap();
    assert_eq!(q.op, RedisOp::Error);
}

#[test]
fn request_bad_field_fails() {
    assert!(matches!(
        RedisRequest::parse("GET\r\n:nope".to_string()),
        Err(RedisError::ParseFailed)
    ));
}

#[test]
fn error_text_and_conversion() {
    assert_eq!(RedisError::ParseFailed.message(), "Parse failed");
    assert_eq!(
        RedisError::Custom("boom".to_string()).message(),
        "boom"
    );
    assert_eq!(
        RedisError::from("boom".to_string()),
        RedisError::Custom("boom".to_string())
    );
}
