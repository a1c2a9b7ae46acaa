use cubicle::cmd::Cmd;
use cubicle::resp::Frame;
use cubicle::value::Value;

fn bulk(s: &str) -> Frame {
    Frame::BulkString(Some(s.as_bytes().to_vec()))
}

fn array(items: Vec<Frame>) -> Frame {
    Frame::Array(Some(items))
}

fn err(f: Frame) -> String {
    Cmd::try_from(f).unwrap_err()
}

#[test]
fn commands_in_any_case() {
    assert_eq!(
        Cmd::try_from(array(vec![bulk("get"), bulk("user:1")])),
        Ok(Cmd::Get("user:1".to_string()))
    );
    assert_eq!(
        Cmd::try_from(array(vec![bulk("SeT"), bulk("age"), bulk("30")])),
        Ok(Cmd::SetValue("age".to_string(), Value::Integer(30)))
    );
    assert_eq!(
        Cmd::try_from(array(vec![Frame::SimpleString("del".to_string()), bulk("k")])),
        Ok(Cmd::Delete("k".to_string()))
    );
    assert_eq!(
        Cmd::try_from(array(vec![bulk("DELETE"), bulk("k")])),
        Ok(Cmd::Delete("k".to_string()))
    );
    assert_eq!(Cmd::try_from(array(vec![bulk("see")])), Ok(Cmd::See));
    assert_eq!(Cmd::try_from(array(vec![bulk("keys"), bulk("extra")])), Ok(Cmd::See));
    assert_eq!(Cmd::try_from(array(vec![bulk("snapshot")])), Ok(Cmd::Snapshot));
    assert_eq!(Cmd::try_from(array(vec![bulk("save")])), Ok(Cmd::Snapshot));
    assert_eq!(Cmd::try_from(array(vec![bulk("bgsave")])), Ok(Cmd::Snapshot));
}

#[test]
fn protocol_errors() {
    assert_eq!(err(bulk("GET")), "ERR Protocol error: expected array");
    assert_eq!(err(Frame::Array(None)), "ERR Protocol error: expected array");
    assert_eq!(err(array(vec![])), "ERR Protocol error: empty command");
    assert_eq!(err(array(vec![Frame::Integer(1)])), "ERR Protocol error: expected string");
    assert_eq!(
        err(array(vec![Frame::BulkString(Some(vec![0xff]))])),
        "ERR Invalid UTF-8 in string"
    );
    assert_eq!(
        err(array(vec![bulk("GET"), Frame::Null])),
        "ERR Protocol error: expected string"
    );
}

#[test]
fn wrong_number_of_arguments() {
    assert_eq!(
        err(array(vec![bulk("GET")])),
        "ERR wrong number of arguments for 'get' command"
    );
    assert_eq!(
        err(array(vec![bulk("set"), bulk("k")])),
        "ERR wrong number of arguments for 'set' command"
    );
    assert_eq!(
        err(array(vec![bulk("del"), bulk("a"), bulk("b")])),
        "ERR wrong number of arguments for 'del' command"
    );
}

#[test]
fn unknown_command_is_named_in_upper_case() {
    assert_eq!(err(array(vec![bulk("flushall")])), "ERR unknown command 'FLUSHALL'");
    assert_eq!(err(array(vec![bulk("straße")])), "ERR unknown command 'STRASSE'");
}

#[test]
fn set_reads_the_value_before_the_key() {
    assert_eq!(
        err(array(vec![bulk("SET"), Frame::Integer(1), Frame::BulkString(Some(vec![0xff]))])),
        "ERR Invalid UTF-8 in string"
    );
    assert_eq!(
        err(array(vec![bulk("SET"), Frame::Integer(1), bulk("v")])),
        "ERR Protocol error: expected string"
    );
}

#[test]
fn from_name_takes_an_upper_case_name() {
    let frames = vec![bulk("x"), bulk("k")];
    assert_eq!(Cmd::from_name("GET", &frames), Ok(Cmd::Get("k".to_string())));
    assert_eq!(
        Cmd::from_name("get", &frames),
        Err("ERR unknown command 'get'".to_string())
    );
}
