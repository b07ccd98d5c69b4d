use mouse_replay::codec::{decode, encode, DecodeError, Format};
use mouse_replay::{ButtonLabel, MouseEvent};

fn sample(x: i32, y: i32, button: Option<ButtonLabel>, time_us: u64) -> MouseEvent {
    MouseEvent { x, y, button, time_us }
}

fn mixed_timeline() -> Vec<MouseEvent> {
    vec![
        sample(3, -4, None, 0),
        sample(5, 6, Some(ButtonLabel::Left), 500000),
        sample(-2147483648, 2147483647, Some(ButtonLabel::Right), 1000000),
        sample(0, 0, Some(ButtonLabel::Middle), 1000000),
        sample(7, 8, Some(ButtonLabel::Other), 1500000),
    ]
}

#[test]
fn round_trip_delimited() {
    let t = mixed_timeline();
    let bytes = encode(&t, Format::Delimited);
    assert_eq!(decode(&bytes, Format::Delimited), Ok(t));
}

#[test]
fn round_trip_structured() {
    let t = mixed_timeline();
    let bytes = encode(&t, Format::Structured);
    assert_eq!(decode(&bytes, Format::Structured), Ok(t));
}

#[test]
fn round_trip_binary() {
    let t = mixed_timeline();
    let bytes = encode(&t, Format::Binary);
    assert_eq!(decode(&bytes, Format::Binary), Ok(t));
}

#[test]
fn round_trip_empty_all_formats() {
    let t: Vec<MouseEvent> = Vec::new();
    for f in [Format::Delimited, Format::Structured, Format::Binary] {
        let bytes = encode(&t, f);
        assert_eq!(decode(&bytes, f), Ok(Vec::new()));
    }
}

#[test]
fn delimited_exact_text() {
    let t = vec![sample(3, -4, None, 0), sample(5, 6, Some(ButtonLabel::Left), 500000)];
    let bytes = encode(&t, Format::Delimited);
    assert_eq!(
        String::from_utf8(bytes).unwrap(),
        "x,y,button,time\n3,-4,None,0\n5,6,Left,500000\n"
    );
}

#[test]
fn delimited_rejects_non_numeric_x() {
    let text = b"x,y,button,time\nabc,4,None,7\n";
    assert_eq!(decode(text, Format::Delimited), Err(DecodeError::BadRow { row: 1 }));
}

#[test]
fn delimited_rejects_short_row() {
    let text = b"x,y,button,time\n1,2,None,3\n4,5\n";
    assert_eq!(decode(text, Format::Delimited), Err(DecodeError::BadRow { row: 2 }));
}

#[test]
fn delimited_rejects_missing_header() {
    let text = b"1,2,None,3\n";
    assert_eq!(decode(text, Format::Delimited), Err(DecodeError::MissingHeader));
}

#[test]
fn delimited_unknown_label_reads_as_other() {
    let text = b"x,y,button,time\n1,2,Backward,3\n";
    assert_eq!(
        decode(text, Format::Delimited),
        Ok(vec![sample(1, 2, Some(ButtonLabel::Other), 3)])
    );
}

#[test]
fn structured_exact_text() {
    let t = vec![sample(1, 2, Some(ButtonLabel::Left), 3)];
    let bytes = encode(&t, Format::Structured);
    let expected = "[\n  {\n    \"x\": 1,\n    \"y\": 2,\n    \"button\": \"Left\",\n    \"time\": 3\n  }\n]";
    assert_eq!(String::from_utf8(bytes).unwrap(), expected);
}

#[test]
fn structured_accepts_flexible_whitespace() {
    let text = b"[ { \"x\" : 1 , \"y\" : -2 , \"button\" : null , \"time\" : 3 } ]";
    assert_eq!(decode(text, Format::Structured), Ok(vec![sample(1, -2, None, 3)]));
}

#[test]
fn structured_accepts_omitted_button() {
    let text = b"[{\"x\": 1, \"y\": 2, \"time\": 3}]";
    assert_eq!(decode(text, Format::Structured), Ok(vec![sample(1, 2, None, 3)]));
}

#[test]
fn structured_rejects_missing_time() {
    let text = b"[{\"x\": 1, \"y\": 2, \"button\": null}]";
    assert_eq!(decode(text, Format::Structured), Err(DecodeError::Malformed));
}

#[test]
fn structured_rejects_non_integer_field() {
    let text = b"[{\"x\": \"left\", \"y\": 2, \"time\": 3}]";
    assert_eq!(decode(text, Format::Structured), Err(DecodeError::Malformed));
}

#[test]
fn structured_rejects_trailing_text() {
    let text = b"[] extra";
    assert_eq!(decode(text, Format::Structured), Err(DecodeError::Malformed));
}

#[test]
fn structured_output_is_valid_json() {
    let t = mixed_timeline();
    let bytes = encode(&t, Format::Structured);
    let v: serde_json::Value = serde_json::from_slice(&bytes).unwrap();
    let arr = v.as_array().unwrap();
    assert_eq!(arr.len(), 5);
    assert_eq!(arr[0].get("x").unwrap().as_i64(), Some(3));
    assert_eq!(arr[0].get("y").unwrap().as_i64(), Some(-4));
    assert!(arr[0].get("button").unwrap().is_null());
    assert_eq!(arr[0].get("time").unwrap().as_u64(), Some(0));
    assert_eq!(arr[1].get("button").unwrap().as_str(), Some("Left"));
    assert_eq!(arr[1].get("time").unwrap().as_u64(), Some(500000));
    assert_eq!(arr[2].get("x").unwrap().as_i64(), Some(-2147483648));
}

#[test]
fn binary_rejects_truncated_buffer() {
    let t = vec![sample(1, 2, Some(ButtonLabel::Left), 3)];
    let bytes = encode(&t, Format::Binary);
    let cut = &bytes[..bytes.len() - 1];
    assert_eq!(decode(cut, Format::Binary), Err(DecodeError::Truncated));
    assert_eq!(decode(&bytes[..4], Format::Binary), Err(DecodeError::Truncated));
}

#[test]
fn binary_rejects_trailing_bytes() {
    let t = vec![sample(1, 2, None, 3)];
    let mut bytes = encode(&t, Format::Binary);
    bytes.push(0);
    assert_eq!(decode(&bytes, Format::Binary), Err(DecodeError::Trailing));
}

#[test]
fn binary_rejects_bad_option_tag() {
    let t = vec![sample(1, 2, None, 3)];
    let mut bytes = encode(&t, Format::Binary);
    // The option tag sits after the count and the two coordinates.
    bytes[16] = 7;
    assert_eq!(decode(&bytes, Format::Binary), Err(DecodeError::BadTag));
}

#[test]
fn button_labels_survive_every_format() {
    for label in [
        ButtonLabel::Left,
        ButtonLabel::Right,
        ButtonLabel::Middle,
        ButtonLabel::Other,
    ] {
        let t = vec![sample(10, 20, Some(label), 42)];
        for f in [Format::Delimited, Format::Structured, Format::Binary] {
            let decoded = decode(&encode(&t, f), f).unwrap();
            assert_eq!(decoded[0].button, Some(label));
        }
    }
}
