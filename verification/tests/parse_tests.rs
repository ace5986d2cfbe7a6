use registry_migrate::config::ConfigError;
use registry_migrate::parse::parse_config;

fn parse(text: &str) -> Result<registry_migrate::config::Config, ConfigError> {
    parse_config(&text.as_bytes().to_vec())
}

#[test]
fn parses_minimal_config() {
    let c = parse(r#"{"source":"old.reg","destination":"new.reg","images":[]}"#).unwrap();
    assert_eq!(c.source, b"old.reg".to_vec());
    assert_eq!(c.destination, b"new.reg".to_vec());
    assert!(c.platforms.is_none());
    assert!(c.images.is_empty());
}

#[test]
fn parses_full_config() {
    let text = r#"
        {
            "source": "reg.a/ns",
            "destination": "reg.b/ns",
            "platforms": ["linux/amd64", "linux/arm64"],
            "images": [
                { "image": "app", "versions": ["1.0", "2.0"] },
                { "image": "db", "versions": ["9"], "platforms": ["linux/386"] }
            ]
        }
    "#;
    let c = parse(text).unwrap();
    assert_eq!(c.source, b"reg.a/ns".to_vec());
    assert_eq!(c.destination, b"reg.b/ns".to_vec());
    assert_eq!(
        c.platforms,
        Some(vec![b"linux/amd64".to_vec(), b"linux/arm64".to_vec()])
    );
    assert_eq!(c.images.len(), 2);
    assert_eq!(c.images[0].image, b"app".to_vec());
    assert_eq!(c.images[0].versions, vec![b"1.0".to_vec(), b"2.0".to_vec()]);
    assert!(c.images[0].platforms.is_none());
    assert_eq!(c.images[1].image, b"db".to_vec());
    assert_eq!(c.images[1].versions, vec![b"9".to_vec()]);
    assert_eq!(c.images[1].platforms, Some(vec![b"linux/386".to_vec()]));
}

#[test]
fn accepts_fields_in_any_order() {
    let text = r#"{"images":[],"destination":"d","source":"s"}"#;
    let c = parse(text).unwrap();
    assert_eq!(c.source, b"s".to_vec());
    assert_eq!(c.destination, b"d".to_vec());
}

#[test]
fn accepts_image_fields_in_any_order() {
    let text = r#"{"source":"s","destination":"d","images":[
        {"versions":["v"],"platforms":["p"],"image":"i"}]}"#;
    let c = parse(text).unwrap();
    assert_eq!(c.images[0].image, b"i".to_vec());
    assert_eq!(c.images[0].versions, vec![b"v".to_vec()]);
    assert_eq!(c.images[0].platforms, Some(vec![b"p".to_vec()]));
}

#[test]
fn rejects_empty_text() {
    assert_eq!(parse(""), Err(ConfigError::Parse));
    assert_eq!(parse("   \n\t "), Err(ConfigError::Parse));
}

#[test]
fn rejects_malformed_json() {
    assert_eq!(parse(r#"{"source":}"#), Err(ConfigError::Parse));
    assert_eq!(parse(r#"{"source":"s""#), Err(ConfigError::Parse));
    assert_eq!(parse(r#"not json at all"#), Err(ConfigError::Parse));
    assert_eq!(
        parse(r#"{"source":"s","destination":"d","images":[}"#),
        Err(ConfigError::Parse)
    );
}

#[test]
fn rejects_missing_required_field() {
    assert_eq!(parse(r#"{"source":"s","images":[]}"#), Err(ConfigError::Parse));
    assert_eq!(
        parse(r#"{"source":"s","destination":"d"}"#),
        Err(ConfigError::Parse)
    );
    // an image without versions
    assert_eq!(
        parse(r#"{"source":"s","destination":"d","images":[{"image":"i"}]}"#),
        Err(ConfigError::Parse)
    );
}

#[test]
fn rejects_duplicate_field() {
    assert_eq!(
        parse(r#"{"source":"s","source":"t","destination":"d","images":[]}"#),
        Err(ConfigError::Parse)
    );
}

#[test]
fn ignores_unknown_fields() {
    // unknown fields are passed over, whatever their value holds
    let text = r#"{
        "source": "s",
        "comment": "ignored",
        "retries": -12.5e+3,
        "labels": {"a": [1, true, null], "b": {}},
        "flags": [],
        "destination": "d",
        "enabled": false,
        "images": [{"image":"i","note":{"x":"y"},"versions":["v"]}]
    }"#;
    let c = parse(text).unwrap();
    assert_eq!(c.source, b"s".to_vec());
    assert_eq!(c.destination, b"d".to_vec());
    assert_eq!(c.images[0].image, b"i".to_vec());
    assert_eq!(c.images[0].versions, vec![b"v".to_vec()]);
}

#[test]
fn rejects_malformed_unknown_value() {
    // an unknown field's value must still be well-formed JSON
    assert_eq!(
        parse(r#"{"source":"s","extra":[},"destination":"d","images":[]}"#),
        Err(ConfigError::Parse)
    );
    assert_eq!(
        parse(r#"{"source":"s","extra":01,"destination":"d","images":[]}"#),
        Err(ConfigError::Parse)
    );
    assert_eq!(
        parse(r#"{"source":"s","extra":tru,"destination":"d","images":[]}"#),
        Err(ConfigError::Parse)
    );
}

#[test]
fn rejects_trailing_garbage() {
    assert_eq!(
        parse(r#"{"source":"s","destination":"d","images":[]} trailing"#),
        Err(ConfigError::Parse)
    );
}

#[test]
fn rejects_wrong_value_shape() {
    // a string where an array is expected, and the other way round
    assert_eq!(
        parse(r#"{"source":"s","destination":"d","images":"nope"}"#),
        Err(ConfigError::Parse)
    );
    assert_eq!(
        parse(r#"{"source":["s"],"destination":"d","images":[]}"#),
        Err(ConfigError::Parse)
    );
}

#[test]
fn decodes_escapes_in_strings() {
    let c = parse(r#"{"source":"a\"b\\c\/d\n","destination":"d","images":[]}"#).unwrap();
    assert_eq!(c.source, b"a\"b\\c/d\n".to_vec());
}

#[test]
fn decodes_unicode_escapes() {
    // A is 'A'; é and € take two and three UTF-8 bytes
    let c = parse(r#"{"source":"a\u0041b","destination":"\u00e9\u20ac","images":[]}"#).unwrap();
    assert_eq!(c.source, b"aAb".to_vec());
    assert_eq!(c.destination, "\u{e9}\u{20ac}".as_bytes().to_vec());
}

#[test]
fn decodes_surrogate_pairs() {
    // 𝄞 is U+1D11E, four UTF-8 bytes
    let c = parse(r#"{"source":"\ud834\udd1e","destination":"d","images":[]}"#).unwrap();
    assert_eq!(c.source, "\u{1d11e}".as_bytes().to_vec());
    assert_eq!(c.source, vec![0xf0, 0x9d, 0x84, 0x9e]);
}

#[test]
fn rejects_lone_surrogates() {
    assert_eq!(
        parse(r#"{"source":"\ud834","destination":"d","images":[]}"#),
        Err(ConfigError::Parse)
    );
    assert_eq!(
        parse(r#"{"source":"\udd1e","destination":"d","images":[]}"#),
        Err(ConfigError::Parse)
    );
    assert_eq!(
        parse(r#"{"source":"\ud834A","destination":"d","images":[]}"#),
        Err(ConfigError::Parse)
    );
}

#[test]
fn rejects_bad_escape() {
    assert_eq!(
        parse(r#"{"source":"a\x","destination":"d","images":[]}"#),
        Err(ConfigError::Parse)
    );
    assert_eq!(
        parse(r#"{"source":"a\u00g1","destination":"d","images":[]}"#),
        Err(ConfigError::Parse)
    );
    assert_eq!(
        parse(r#"{"source":"a\u00","destination":"d","images":[]}"#),
        Err(ConfigError::Parse)
    );
}

#[test]
fn accepts_utf8_text() {
    let text = "{\"source\":\"r\u{e9}g\",\"destination\":\"d\",\"images\":[]}";
    let c = parse(text).unwrap();
    assert_eq!(c.source, "r\u{e9}g".as_bytes().to_vec());
}

#[test]
fn rejects_invalid_utf8() {
    // a stray continuation byte, and an overlong encoding of '/'
    let mut bytes = b"{\"source\":\"a".to_vec();
    bytes.push(0xff);
    bytes.extend_from_slice(b"\",\"destination\":\"d\",\"images\":[]}");
    assert_eq!(parse_config(&bytes), Err(ConfigError::Parse));

    let mut overlong = b"{\"source\":\"a".to_vec();
    overlong.extend_from_slice(&[0xc0, 0xaf]);
    overlong.extend_from_slice(b"\",\"destination\":\"d\",\"images\":[]}");
    assert_eq!(parse_config(&overlong), Err(ConfigError::Parse));
}

#[test]
fn rejects_raw_control_byte_in_string() {
    let bytes = b"{\"source\":\"a\x01b\",\"destination\":\"d\",\"images\":[]}".to_vec();
    assert_eq!(parse_config(&bytes), Err(ConfigError::Parse));
}

#[test]
fn rejects_values_outside_the_shape() {
    // the configuration shape has no null, number, boolean or nesting
    assert!(matches!(
        parse(r#"{"source":null,"destination":"d","images":[]}"#),
        Err(ConfigError::Parse)
    ));
    assert!(matches!(
        parse(r#"{"source":"s","destination":"d","images":[7]}"#),
        Err(ConfigError::Parse)
    ));
    assert!(matches!(
        parse(r#"{"source":"s","destination":"d","images":[{"image":"i","versions":[["v"]]}]}"#),
        Err(ConfigError::Parse)
    ));
}

#[test]
fn accepts_empty_platform_list() {
    let c = parse(r#"{"source":"s","destination":"d","platforms":[],"images":[]}"#).unwrap();
    assert_eq!(c.platforms, Some(vec![]));
}

#[test]
fn accepts_duplicate_images_and_versions() {
    // no uniqueness is enforced: duplicates are kept, in order
    let text = r#"{"source":"s","destination":"d","images":[
        {"image":"a","versions":["1","1"]},
        {"image":"a","versions":["1"]}]}"#;
    let c = parse(text).unwrap();
    assert_eq!(c.images.len(), 2);
    assert_eq!(c.images[0].versions, vec![b"1".to_vec(), b"1".to_vec()]);
}
