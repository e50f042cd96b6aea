use electrs::hash::full_hash;
use electrs::history::{get_electrum_height, get_status_hash, list_history, status_value};
use electrs::json::{parse_json, render_json, Json};
use electrs::params::{
    bool_from_value, bool_from_value_or, get_param, usize_from_value, usize_from_value_or,
};

#[test]
fn json_is_read_and_written() {
    for text in [
        "null",
        "true",
        "0",
        "18446744073709551615",
        "-9223372036854775808",
        "1.5",
        "\"a\\\"b\\n\u{e4}\"",
        "[1,[],{}]",
        "{\"a\":{\"b\":[null,false]},\"c\":-1}",
    ] {
        assert_eq!(render_json(&parse_json(text).unwrap()), text);
        assert_eq!(render_json(&parse_json(text).unwrap().copy()), text);
    }
    // fields come out in order of their names, without white space
    assert_eq!(render_json(&parse_json(" { \"b\" : 1 , \"a\" : 2 } ").unwrap()), "{\"a\":2,\"b\":1}");
    for bad in ["", "{", "[1,]", "nul", "'a'", "1 2"] {
        assert!(parse_json(bad).is_err(), "{}", bad);
    }
}

#[test]
fn json_numbers_keep_their_kind() {
    assert!(matches!(parse_json("7").unwrap(), Json::Unsigned(7)));
    assert!(matches!(parse_json("-7").unwrap(), Json::Negative(-7)));
    assert!(matches!(parse_json("7.0").unwrap(), Json::Float(_)));
    assert!(matches!(parse_json("18446744073709551616").unwrap(), Json::Float(_)));
    assert!(matches!(Json::integer(-3), Json::Negative(-3)));
    assert!(matches!(Json::integer(3), Json::Unsigned(3)));
}

#[test]
fn json_objects_are_built_and_looked_into() {
    let object = Json::empty_object()
        .with("a", Json::text("x"))
        .with("b", Json::array(vec![Json::Bool(true)]));
    assert_eq!(render_json(&object), "{\"a\":\"x\",\"b\":[true]}");
    assert!(matches!(object.get("a"), Some(Json::Text(text)) if text == "x"));
    assert!(object.get("c").is_none());
    assert!(Json::Null.get("a").is_none());
}

#[test]
fn parameters_are_read() {
    let message = |r: Result<usize, electrs::params::RpcError>| r.unwrap_err().message;
    let params = vec![Json::Unsigned(5), Json::Bool(true), Json::Negative(-1)];
    assert_eq!(usize_from_value(get_param(&params, 0), "n").unwrap(), 5);
    assert_eq!(usize_from_value_or(get_param(&params, 0), "n", 9).unwrap(), 5);
    assert_eq!(usize_from_value_or(get_param(&params, 3), "n", 9).unwrap(), 9);
    assert_eq!(message(usize_from_value(get_param(&params, 3), "n")), "missing n");
    assert_eq!(message(usize_from_value(get_param(&params, 2), "n")), "non-integer n");
    assert_eq!(message(usize_from_value_or(get_param(&params, 1), "n", 9)), "non-integer n");
    assert_eq!(bool_from_value(get_param(&params, 1), "b").unwrap(), true);
    assert_eq!(bool_from_value_or(get_param(&params, 3), "b", true).unwrap(), true);
    assert_eq!(
        bool_from_value(get_param(&params, 0), "b").unwrap_err().message,
        "not a bool b"
    );
    assert_eq!(bool_from_value(None, "b").unwrap_err().message, "missing b");
}

#[test]
fn heights_and_statuses() {
    let block = electrs::chain::BlockId { height: 12, hash: [0; 32] };
    assert_eq!(get_electrum_height(Some(block), true), 12);
    assert_eq!(get_electrum_height(None, true), -1);
    assert_eq!(get_electrum_height(None, false), 0);
    assert!(get_status_hash(&vec![], &vec![]).is_none());
    assert_eq!(render_json(&list_history(&vec![], &vec![], &vec![])), "[]");
    assert_eq!(render_json(&status_value(&None)), "null");
    let hash = full_hash(&[0x1f; 32]);
    assert_eq!(render_json(&status_value(&Some(hash))), format!("\"{}\"", "1f".repeat(32)));
}

#[test]
fn tree_is_taken_over_without_its_text() {
    // a double whose text is not read back exactly by every parser
    for bits in [0x3fb9_9999_9999_999au64, 0x3f1a_36e2_eb1c_432d, 0x40c3_8800_0000_0001] {
        let value = f64::from_bits(bits);
        match Json::from_tree(serde_json::Value::from(value)) {
            Json::Float(n) => assert_eq!(n.as_f64().unwrap().to_bits(), bits),
            other => panic!("{:?}", other),
        }
    }
    let tree = serde_json::Value::Array(vec![
        serde_json::Value::from(7u64),
        serde_json::Value::from(-7),
        serde_json::Value::from("x"),
        serde_json::Value::Null,
    ]);
    assert_eq!(render_json(&Json::from_tree(tree)), "[7,-7,\"x\",null]");
}
