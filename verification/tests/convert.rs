use pb_to_json::convert_pb_to_json;

fn normalize_json(json: &str) -> String {
    let parsed: serde_json::Value = serde_json::from_str(json).unwrap();
    serde_json::to_string_pretty(&parsed).unwrap()
}

#[test]
fn test_simple_pb() {
    let pb_string = r#"
            name: "John Doe"
            age: 30
            city: "New York"
        "#;

    let expected_json = r#"{
            "name": "John Doe",
            "age": "30",
            "city": "New York"
        }"#;

    let actual_json = convert_pb_to_json(pb_string);
    assert_eq!(normalize_json(expected_json), normalize_json(&actual_json));
}

#[test]
fn test_nested_pb() {
    let pb_string = r#"
            name: "Alice"
            address {
                street: "123 Main St"
                city: "London"
                country: "UK"
            }
            phone_numbers: "1234567890"
            phone_numbers: "9876543210"
        "#;

    let expected_json = r#"{
            "name": "Alice",
            "address": {
                "street": "123 Main St",
                "city": "London",
                "country": "UK"
            },
            "phone_numbers": [
                "1234567890",
                "9876543210"
            ]
        }"#;

    let actual_json = convert_pb_to_json(pb_string);
    assert_eq!(normalize_json(expected_json), normalize_json(&actual_json));
}

#[test]
fn test_empty_pb() {
    let pb_string = "";
    let expected_json = "{}";

    let actual_json = convert_pb_to_json(pb_string);
    assert_eq!(expected_json, actual_json);
}
