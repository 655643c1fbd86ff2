use price_providers::binance_api::{deserialize_trades, trade_from_json, trades_from_json};
use price_providers::json::{find_member, parse_json, Json};

fn member<'a>(json: &'a Json, name: &str) -> Option<&'a Json> {
    match json {
        Json::Object(members) => find_member(members, name),
        _ => None,
    }
}

#[test]
fn parse_json_reads_each_kind_of_value() {
    assert!(matches!(parse_json("null"), Ok(Json::Null)));
    assert!(matches!(parse_json(" true "), Ok(Json::Bool(true))));
    assert!(matches!(parse_json("false"), Ok(Json::Bool(false))));
    assert!(matches!(parse_json("26129"), Ok(Json::Number(Some(26129)))));
    assert!(matches!(parse_json("-7"), Ok(Json::Number(Some(-7)))));
    assert!(matches!(parse_json("9223372036854775807"), Ok(Json::Number(Some(i64::MAX)))));
    assert!(matches!(parse_json("9223372036854775808"), Ok(Json::Number(None))));
    assert!(matches!(parse_json("1.5"), Ok(Json::Number(None))));
    assert!(matches!(parse_json("1e2"), Ok(Json::Number(None))));
    match parse_json(r#""a \"price\"""#) {
        Ok(Json::Text(text)) => assert_eq!(text, "a \"price\""),
        other => panic!("not a text: {:?}", other),
    }
    match parse_json("[1, [2], {}]") {
        Ok(Json::Array(items)) => {
            assert_eq!(items.len(), 3);
            assert!(matches!(items[0], Json::Number(Some(1))));
            assert!(matches!(&items[1], Json::Array(inner) if inner.len() == 1));
            assert!(matches!(&items[2], Json::Object(members) if members.is_empty()));
        }
        other => panic!("not an array: {:?}", other),
    }
}

#[test]
fn parse_json_reads_the_members_of_an_object() {
    let json = parse_json(r#"{"p": "0.5", "a": 3, "m": true, "in": {"p": 1}}"#).unwrap();
    assert!(matches!(member(&json, "a"), Some(Json::Number(Some(3)))));
    assert!(matches!(member(&json, "p"), Some(Json::Text(text)) if text == "0.5"));
    assert!(matches!(member(&json, "m"), Some(Json::Bool(true))));
    assert!(matches!(member(&json, "q"), None));
    let inner = member(&json, "in").unwrap();
    assert!(matches!(member(inner, "p"), Some(Json::Number(Some(1)))));
}

#[test]
fn parse_json_refuses_what_is_no_document() {
    for text in ["", "a response", "[1,", "{\"a\": }", "[1] 2", "{'a': 1}", "nul"] {
        assert!(parse_json(text).is_err(), "{:?} was read", text);
    }
}

#[test]
fn find_member_takes_the_first_of_two() {
    let members = vec![
        ("p".to_string(), Json::Null),
        ("q".to_string(), Json::Bool(true)),
        ("q".to_string(), Json::Bool(false)),
    ];
    assert!(matches!(find_member(&members, "q"), Some(Json::Bool(true))));
    assert!(matches!(find_member(&members, "p"), Some(Json::Null)));
    assert!(find_member(&members, "P").is_none());
    assert!(find_member(&Vec::new(), "p").is_none());
}

#[test]
fn deserialize_trades_reads_every_field() {
    let text = r#"[{"a": 26129,"p": "0.01633102","q": "4.70443515","f": 27781,"l": 27782,"T": 1498793709153,"m": true,"M": false }]"#;
    let trades = deserialize_trades(text).unwrap();
    assert_eq!(trades.len(), 1);
    let trade = &trades[0];
    assert_eq!(trade.a, 26129);
    assert_eq!(trade.p, "0.01633102");
    assert_eq!(trade.q, "4.70443515");
    assert_eq!(trade.f, 27781);
    assert_eq!(trade.l, 27782);
    assert_eq!(trade.T, 1498793709153);
    assert!(trade.m);
    assert!(!trade.M);
}

#[test]
fn deserialize_trades_keeps_the_order_of_the_list() {
    let text = r#"[{"a":2,"p":"2","q":"1","f":1,"l":1,"T":1,"m":false,"M":true},{"a":1,"p":"1","q":"1","f":1,"l":1,"T":1,"m":false,"M":true},{"a":3,"p":"3","q":"1","f":1,"l":1,"T":1,"m":false,"M":true}]"#;
    let trades = deserialize_trades(text).unwrap();
    let ids: Vec<i64> = trades.iter().map(|trade| trade.a).collect();
    assert_eq!(ids, vec![2, 1, 3]);
}

#[test]
fn deserialize_trades_reads_an_empty_list() {
    assert!(deserialize_trades("[]").unwrap().is_empty());
    assert!(deserialize_trades(" [ ] ").unwrap().is_empty());
}

#[test]
fn deserialize_trades_passes_over_other_keys() {
    let text = r#"[{"x": [1, {"y": null}], "a":1,"p":"1","q":"1","f":1,"l":1,"T":1,"m":false,"M":true}]"#;
    assert_eq!(deserialize_trades(text).unwrap().len(), 1);
}

#[test]
fn deserialize_trades_refuses_a_missing_or_mistyped_field() {
    let missing_price = r#"[{"a": 26129,"q": "4.70443515","f": 27781,"l": 27781,"T": 1498793709153,"m": true,"M": true }]"#;
    let number_as_price = r#"[{"a":1,"p":1.5,"q":"1","f":1,"l":1,"T":1,"m":false,"M":true}]"#;
    let text_as_id = r#"[{"a":"1","p":"1","q":"1","f":1,"l":1,"T":1,"m":false,"M":true}]"#;
    let fraction_as_id = r#"[{"a":1.5,"p":"1","q":"1","f":1,"l":1,"T":1,"m":false,"M":true}]"#;
    let number_as_flag = r#"[{"a":1,"p":"1","q":"1","f":1,"l":1,"T":1,"m":0,"M":true}]"#;
    let null_field = r#"[{"a":1,"p":"1","q":null,"f":1,"l":1,"T":1,"m":false,"M":true}]"#;
    let lower_case_key = r#"[{"a":1,"p":"1","q":"1","f":1,"l":1,"t":1,"m":false,"M":true}]"#;
    let too_large = r#"[{"a":9223372036854775808,"p":"1","q":"1","f":1,"l":1,"T":1,"m":false,"M":true}]"#;
    let second_is_bad = r#"[{"a":1,"p":"1","q":"1","f":1,"l":1,"T":1,"m":false,"M":true}, 5]"#;
    for text in [
        missing_price,
        number_as_price,
        text_as_id,
        fraction_as_id,
        number_as_flag,
        null_field,
        lower_case_key,
        too_large,
        second_is_bad,
    ] {
        assert!(deserialize_trades(text).is_none(), "{:?} was read", text);
    }
}

#[test]
fn deserialize_trades_refuses_what_is_no_list() {
    let one_trade = r#"{"a":1,"p":"1","q":"1","f":1,"l":1,"T":1,"m":false,"M":true}"#;
    for text in [one_trade, "a response", "", "null", "7", "\"[]\""] {
        assert!(deserialize_trades(text).is_none(), "{:?} was read", text);
    }
}

#[test]
fn trade_from_json_reads_an_object_built_by_hand() {
    let json = Json::Object(vec![
        ("M".to_string(), Json::Bool(true)),
        ("m".to_string(), Json::Bool(false)),
        ("T".to_string(), Json::Number(Some(6))),
        ("l".to_string(), Json::Number(Some(5))),
        ("f".to_string(), Json::Number(Some(4))),
        ("q".to_string(), Json::Text("3".to_string())),
        ("p".to_string(), Json::Text("2".to_string())),
        ("a".to_string(), Json::Number(Some(1))),
    ]);
    let trade = trade_from_json(&json).unwrap();
    assert_eq!((trade.a, trade.f, trade.l, trade.T), (1, 4, 5, 6));
    assert_eq!((trade.p.as_str(), trade.q.as_str()), ("2", "3"));
    assert_eq!((trade.m, trade.M), (false, true));
    assert!(trade_from_json(&Json::Array(Vec::new())).is_none());
    assert!(trade_from_json(&Json::Null).is_none());
}

#[test]
fn trades_from_json_reads_an_array_only() {
    assert!(trades_from_json(&Json::Array(Vec::new())).unwrap().is_empty());
    assert!(trades_from_json(&Json::Object(Vec::new())).is_none());
    assert!(trades_from_json(&Json::Array(vec![Json::Null])).is_none());
}
