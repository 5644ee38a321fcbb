use myrpc4rs::common::{Request, Response};
use myrpc4rs::error::Error;
use myrpc4rs::serialization::BincodeSerializer;

fn sample_request() -> Request {
    Request {
        id: 7,
        name: String::from("echo"),
        params: vec![vec![1, 2, 3], vec![], vec![255, 0, 127]],
    }
}

#[test]
fn request_round_trip() {
    let s = BincodeSerializer::new();
    let request = sample_request();
    let bytes = s.serialize_request(&request);
    let back = s.deserialize_request(&bytes).unwrap();
    assert_eq!(request, back);
}

#[test]
fn request_round_trip_non_ascii_name() {
    let s = BincodeSerializer::new();
    let request = Request {
        id: 42,
        name: String::from("s\u{00fc}m\u{2192}"),
        params: vec![vec![0]],
    };
    let bytes = s.serialize_request(&request);
    let back = s.deserialize_request(&bytes).unwrap();
    assert_eq!(request, back);
}

#[test]
fn request_exact_wire_layout() {
    let s = BincodeSerializer::new();
    let request = Request { id: 1, name: String::from("ab"), params: vec![vec![9]] };
    let bytes = s.serialize_request(&request);
    let expected: Vec<u8> = vec![
        1, 0, 0, 0, // id, little endian
        2, 0, 0, 0, 0, 0, 0, 0, // name byte length
        97, 98, // "ab"
        1, 0, 0, 0, 0, 0, 0, 0, // parameter count
        1, 0, 0, 0, 0, 0, 0, 0, // first parameter length
        9, // first parameter
    ];
    assert_eq!(bytes, expected);
}

#[test]
fn response_round_trip_ok() {
    let s = BincodeSerializer::new();
    let response = Response { id: 3, name: String::from("f"), result: Ok(vec![10, 20]) };
    let bytes = s.serialize_response(&response);
    assert_eq!(response, s.deserialize_response(&bytes).unwrap());
}

#[test]
fn response_round_trip_each_error() {
    let s = BincodeSerializer::new();
    for error in [Error::FunctionNotFound, Error::ParamDeserializeFail] {
        let response = Response { id: 9, name: String::from("g"), result: Err(error) };
        let bytes = s.serialize_response(&response);
        assert_eq!(response, s.deserialize_response(&bytes).unwrap());
    }
}

#[test]
fn u32_codec_matches_bincode() {
    let s = BincodeSerializer::new();
    assert_eq!(s.serialize_u32(12), vec![12, 0, 0, 0]);
    assert_eq!(s.serialize_u32(12), bincode::serialize(&12u32).unwrap());
    assert_eq!(s.serialize_u32(0x0102_0304), vec![4, 3, 2, 1]);
    assert_eq!(s.deserialize_u32(&[12, 0, 0, 0]), Ok(12));
    let roundtrip: u32 = bincode::deserialize(&s.serialize_u32(98765)).unwrap();
    assert_eq!(roundtrip, 98765);
}

#[test]
fn u32_decode_short_input_fails() {
    let s = BincodeSerializer::new();
    assert_eq!(s.deserialize_u32(&[1, 2]), Err(Error::ParamDeserializeFail));
    assert_eq!(s.deserialize_u32(&[]), Err(Error::ParamDeserializeFail));
}

#[test]
fn request_decode_rejects_truncation() {
    let s = BincodeSerializer::new();
    let bytes = s.serialize_request(&sample_request());
    let truncated = &bytes[..bytes.len() - 1];
    assert_eq!(s.deserialize_request(truncated), Err(Error::ParamDeserializeFail));
}

#[test]
fn request_decode_rejects_trailing_bytes() {
    let s = BincodeSerializer::new();
    let mut bytes = s.serialize_request(&sample_request());
    bytes.push(0);
    assert_eq!(s.deserialize_request(&bytes), Err(Error::ParamDeserializeFail));
}

#[test]
fn request_decode_rejects_invalid_utf8_name() {
    let s = BincodeSerializer::new();
    let bytes: Vec<u8> = vec![
        1, 0, 0, 0, // id
        1, 0, 0, 0, 0, 0, 0, 0,   // name byte length
        0xff, // not valid UTF-8
        0, 0, 0, 0, 0, 0, 0, 0, // parameter count
    ];
    assert_eq!(s.deserialize_request(&bytes), Err(Error::ParamDeserializeFail));
}

#[test]
fn response_constructors() {
    let request = Request { id: 5, name: String::from("n"), params: vec![] };
    let ok = Response::from(request.clone(), vec![1]);
    assert_eq!(ok.id, 5);
    assert_eq!(ok.name, "n");
    assert_eq!(ok.result, Ok(vec![1]));
    let err = Response::err(request, Error::FunctionNotFound);
    assert_eq!(err.id, 5);
    assert_eq!(err.result, Err(Error::FunctionNotFound));
    let unknown = Response::err_unknow_request(Error::ParamDeserializeFail);
    assert_eq!(unknown.id, u32::MAX);
    assert_eq!(unknown.name, "");
    assert_eq!(unknown.result, Err(Error::ParamDeserializeFail));
}
