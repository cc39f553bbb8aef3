use std::io::Write;

use bugcheck::parsing::decode_blueprint_payload;
use bugcheck::parsing::DecodeError;

fn encode(text: &str) -> String {
    let mut encoder =
        flate2::write::ZlibEncoder::new(Vec::new(), flate2::Compression::default());
    encoder.write_all(text.as_bytes()).expect("compressing in memory cannot fail");
    let compressed = encoder.finish().expect("compressing in memory cannot fail");
    let b64 = base64::Engine::encode(&base64::engine::general_purpose::STANDARD, &compressed);
    format!("0{}", b64)
}

#[test]
fn payload_round_trips() {
    let text = "{\"blueprint\":{\"entities\":[]}}";
    let encoded = encode(text);
    let r = decode_blueprint_payload(encoded.as_bytes());
    assert_eq!(r, Ok(text.to_string()));
}

#[test]
fn surrounding_whitespace_is_trimmed() {
    let text = "{\"blueprint\":{}}";
    let encoded = format!("  \t{}\r\n", encode(text));
    let r = decode_blueprint_payload(encoded.as_bytes());
    assert_eq!(r, Ok(text.to_string()));
}

#[test]
fn broken_base64_is_rejected() {
    let r = decode_blueprint_payload(b"0!!!not base64!!!");
    assert_eq!(r, Err(DecodeError::InvalidBase64));
}

#[test]
fn base64_of_garbage_is_not_a_zlib_stream() {
    let b64 = base64::Engine::encode(
        &base64::engine::general_purpose::STANDARD,
        b"these bytes are no zlib stream",
    );
    let encoded = format!("0{}", b64);
    let r = decode_blueprint_payload(encoded.as_bytes());
    assert_eq!(r, Err(DecodeError::InvalidCompression));
}

#[test]
fn empty_input_is_not_a_blueprint() {
    let r = decode_blueprint_payload(b"");
    assert_eq!(r, Err(DecodeError::InvalidCompression));
}

#[test]
fn version_byte_is_stripped() {
    // The same payload behind two different version bytes decodes alike.
    let text = "{\"x\":1}";
    let body = encode(text);
    let with_other_version = format!("9{}", &body[1..]);
    assert_eq!(decode_blueprint_payload(body.as_bytes()), Ok(text.to_string()));
    assert_eq!(decode_blueprint_payload(with_other_version.as_bytes()), Ok(text.to_string()));
}
