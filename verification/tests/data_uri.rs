use std::str::FromStr;
use tarn::data_uri::{DataURI, DataURIError};

#[test]
fn new_encodes_and_decode_roundtrips() {
    let bytes = vec![0u8, 1, 2, 250, 255];
    let uri = DataURI::new("image/png".to_string(), &bytes);
    assert_eq!(uri.decode().unwrap(), bytes);
    assert_eq!(uri.mime(), "image/png");
}

#[test]
fn to_string_shape() {
    let uri = DataURI::new("image/gif".to_string(), b"hi");
    assert_eq!(uri.to_string(), "data:image/gif;base64,aGk=");
}

#[test]
fn parse_valid() {
    let uri = DataURI::from_str("data:image/png;base64,aGk=").unwrap();
    assert_eq!(uri.mime(), "image/png");
    assert_eq!(uri.decode().unwrap(), b"hi".to_vec());
    assert_eq!(uri.to_string(), "data:image/png;base64,aGk=");
}

#[test]
fn parse_errors() {
    assert!(matches!(DataURI::from_str("image/png;base64,aGk="), Err(DataURIError::MissingPrefix)));
    assert!(matches!(DataURI::from_str("data:image/png,aGk="), Err(DataURIError::MissingSeparator)));
    assert!(matches!(DataURI::from_str("data:;base64,aGk="), Err(DataURIError::EmptyMime)));
    assert!(matches!(DataURI::from_str("data:image/png;base64,!!!"), Err(DataURIError::InvalidBase64(_))));
}

#[test]
fn error_messages() {
    assert_eq!(DataURIError::MissingPrefix.to_string(), "missing 'data:' prefix");
    assert_eq!(DataURIError::MissingSeparator.to_string(), "missing ';base64,' separator");
    assert_eq!(DataURIError::EmptyMime.to_string(), "empty MIME type");
    match DataURI::from_str("data:a;base64,!") {
        Err(e) => assert!(e.to_string().starts_with("invalid base64 data: ")),
        Ok(_) => panic!("expected an error"),
    }
}
