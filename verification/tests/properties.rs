use pb_to_json::convert_pb_to_json;

fn parse(json: &str) -> serde_json::Value {
    serde_json::from_str(json).unwrap()
}

fn s(v: &str) -> serde_json::Value {
    serde_json::Value::String(v.to_string())
}

#[test]
fn flat_unique_keys_exact_output() {
    // Keys come out sorted: the output map is ordered by key.
    let out = convert_pb_to_json("b: \"2\"\na: 1");
    assert_eq!(out, "{\n  \"a\": \"1\",\n  \"b\": \"2\"\n}");
}

#[test]
fn unparseable_input_yields_empty_object() {
    assert_eq!(convert_pb_to_json("just text"), "{}");
    assert_eq!(convert_pb_to_json("a: b: c"), "{}");
    assert_eq!(convert_pb_to_json("a:"), "{}");
    assert_eq!(convert_pb_to_json(": b"), "{}");
    assert_eq!(convert_pb_to_json("}"), "{}");
    assert_eq!(convert_pb_to_json("   \n\t\n"), "{}");
}

#[test]
fn repeated_key_twice_gives_pair_array() {
    let out = convert_pb_to_json("k: v1\nk: v2");
    assert_eq!(out, "{\n  \"k\": [\n    \"v1\",\n    \"v2\"\n  ]\n}");
}

#[test]
fn repeated_key_many_keeps_order() {
    let out = convert_pb_to_json("k: v1\nk: v2\nk: v3\nk: v4");
    let doc = parse(&out);
    assert_eq!(
        doc["k"],
        serde_json::Value::Array(vec![s("v1"), s("v2"), s("v3"), s("v4")])
    );
}

#[test]
fn nested_block_fields_last_wins() {
    let out = convert_pb_to_json("k {\n a: \"1\"\n b: \"2\"\n b: \"3\"\n}");
    let doc = parse(&out);
    assert_eq!(doc["k"]["a"], s("1"));
    assert_eq!(doc["k"]["b"], s("3"));
    assert_eq!(doc["k"].as_object().unwrap().len(), 2);
}

#[test]
fn quote_stripping_single_pair_only() {
    let doc = parse(&convert_pb_to_json(
        "x: \"30\"\ny: 30\nz: \"\"30\"\"\nq: \"",
    ));
    assert_eq!(doc["x"], s("30"));
    assert_eq!(doc["y"], s("30"));
    assert_eq!(doc["z"], s("\"30\""));
    assert_eq!(doc["q"], s("\""));
}

#[test]
fn unclosed_block_contributes_nothing() {
    assert_eq!(convert_pb_to_json("k {\n a: 1"), "{}");
    let doc = parse(&convert_pb_to_json("x: 1\nk {\n a: 2"));
    assert_eq!(doc["x"], s("1"));
    assert_eq!(doc.as_object().unwrap().len(), 1);
}

#[test]
fn object_then_scalar_promotes_to_array() {
    let doc = parse(&convert_pb_to_json("k {\n a: 1\n}\nk: v"));
    let arr = doc["k"].as_array().unwrap();
    assert_eq!(arr.len(), 2);
    assert_eq!(arr[0]["a"], s("1"));
    assert_eq!(arr[1], s("v"));
}

#[test]
fn scalar_then_block_overwrites() {
    let doc = parse(&convert_pb_to_json("k: v\nk {\n a: 1\n}"));
    assert_eq!(doc["k"]["a"], s("1"));
}

#[test]
fn conversion_is_deterministic() {
    let input = "name: \"Ada\"\nk: v1\nk: v2\nb {\n x: 1\n}\njunk line";
    let first = convert_pb_to_json(input);
    let second = convert_pb_to_json(input);
    assert_eq!(first, second);
}

#[test]
fn crlf_lines_are_trimmed() {
    let doc = parse(&convert_pb_to_json("a: 1\r\nb: 2\r\n"));
    assert_eq!(doc["a"], s("1"));
    assert_eq!(doc["b"], s("2"));
}

#[test]
fn value_keeps_inner_spaces() {
    let doc = parse(&convert_pb_to_json("greeting:  \"hello there\"  "));
    assert_eq!(doc["greeting"], s("hello there"));
}
