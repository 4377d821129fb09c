use upb::status::{DecodeStatus, EncodeStatus};

#[test]
fn encode_status_codes_never_shift() {
    assert_eq!(EncodeStatus::Success.code(), 0);
    assert_eq!(EncodeStatus::OutOfMemory.code(), 1);
    assert_eq!(EncodeStatus::MaxDepthExceeded.code(), 2);
    assert_eq!(EncodeStatus::MissingRequired.code(), 3);
}

#[test]
fn decode_status_codes_never_shift() {
    assert_eq!(DecodeStatus::Success.code(), 0);
    assert_eq!(DecodeStatus::Malformed.code(), 1);
    assert_eq!(DecodeStatus::OutOfMemory.code(), 2);
    assert_eq!(DecodeStatus::BadUtf8.code(), 3);
    assert_eq!(DecodeStatus::MaxDepthExceeded.code(), 4);
    assert_eq!(DecodeStatus::MissingRequired.code(), 5);
    assert_eq!(DecodeStatus::UnlinkedSubMessage.code(), 6);
}
