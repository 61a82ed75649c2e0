use quentin::ast::{value_to_string, Value};
use quentin::ir::LogType;
use quentin::vm::{level_name, LogLine};

fn s(x: &str) -> String {
    x.to_string()
}

#[test]
fn text_coercion_of_each_value_kind() {
    assert_eq!(value_to_string(&Value::Str(s("plain"))), s("plain"));
    assert_eq!(value_to_string(&Value::Number(s("3.5"))), s("3.5"));
    assert_eq!(value_to_string(&Value::Bool(true)), s("true"));
    assert_eq!(value_to_string(&Value::Bool(false)), s("false"));
    assert_eq!(value_to_string(&Value::Null), s("null"));
}

#[test]
fn level_names_match_their_tags() {
    assert_eq!(level_name(LogType::Info), "info");
    assert_eq!(level_name(LogType::Warn), "warn");
    assert_eq!(level_name(LogType::Error), "error");
}

#[test]
fn rendered_lines_carry_level_tag_and_message() {
    let line = LogLine { level: LogType::Error, message: s("boom") };
    assert_eq!(line.render(), s("[error] boom"));
    let empty = LogLine { level: LogType::Warn, message: s("") };
    assert_eq!(empty.render(), s("[warn] "));
}
