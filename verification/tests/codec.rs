use qinit_ipc::codec::{decode_answer, decode_command, decode_error_details, encode_answer,
    encode_command, encode_error_details, DecodeError};
use qinit_ipc::messages::{AnswerFromQinit, CommandToQinit, ErrorDetails, LoginForm, Splash};

#[test]
fn command_exact_bytes() {
    assert_eq!(encode_command(&CommandToQinit::GetLoginCredentials), vec![1u8]);
    assert_eq!(encode_command(&CommandToQinit::StopListening), vec![2u8]);
    assert_eq!(encode_command(&CommandToQinit::TriggerSplash(Splash::PowerOff)), vec![3u8, 1u8]);
    assert_eq!(encode_command(&CommandToQinit::TriggerSplash(Splash::Reboot)), vec![3u8, 2u8]);
    assert_eq!(encode_command(&CommandToQinit::TriggerSplash(Splash::Sleep)), vec![3u8, 3u8]);
}

#[test]
fn command_round_trip_every_variant() {
    let all = vec![
        CommandToQinit::GetLoginCredentials,
        CommandToQinit::StopListening,
        CommandToQinit::TriggerSplash(Splash::PowerOff),
        CommandToQinit::TriggerSplash(Splash::Reboot),
        CommandToQinit::TriggerSplash(Splash::Sleep),
    ];
    for c in all {
        let bytes = encode_command(&c);
        assert_eq!(decode_command(bytes.as_slice()), Ok(c));
    }
}

#[test]
fn command_unrecognized_payloads_are_hard_errors() {
    assert_eq!(decode_command(&[]), Err(DecodeError::Unrecognized));
    assert_eq!(decode_command(&[0u8]), Err(DecodeError::Unrecognized));
    assert_eq!(decode_command(&[9u8]), Err(DecodeError::Unrecognized));
    assert_eq!(decode_command(&[3u8, 4u8]), Err(DecodeError::Unrecognized));
    assert_eq!(decode_command(&[1u8, 0u8]), Err(DecodeError::Unrecognized));
    assert_eq!(decode_command(&[1u8, 1u8, 1u8]), Err(DecodeError::Unrecognized));
}

#[test]
fn answer_login_none_exact_bytes_and_round_trip() {
    let bytes = encode_answer(&AnswerFromQinit::Login(None));
    assert_eq!(bytes, vec![1u8, 0u8]);
    match decode_answer(bytes.as_slice()) {
        Ok(AnswerFromQinit::Login(None)) => {}
        _ => panic!("expected Login(None)"),
    }
}

#[test]
fn answer_login_form_round_trip() {
    let form = LoginForm {
        username: String::from("ada lovelace"),
        password: String::from("s3cr3t-\u{00e9}\u{1F600}"),
    };
    let bytes = encode_answer(&AnswerFromQinit::Login(Some(form.clone())));
    match decode_answer(bytes.as_slice()) {
        Ok(AnswerFromQinit::Login(Some(back))) => {
            assert_eq!(back.username, form.username);
            assert_eq!(back.password, form.password);
        }
        _ => panic!("expected Login(Some(..))"),
    }
}

#[test]
fn answer_empty_fields_round_trip() {
    let form = LoginForm { username: String::new(), password: String::new() };
    let bytes = encode_answer(&AnswerFromQinit::Login(Some(form)));
    match decode_answer(bytes.as_slice()) {
        Ok(AnswerFromQinit::Login(Some(back))) => {
            assert_eq!(back.username, "");
            assert_eq!(back.password, "");
        }
        _ => panic!("expected Login(Some(..))"),
    }
}

#[test]
fn answer_unrecognized_payloads_are_hard_errors() {
    // too short, wrong tag, unknown option marker, trailing bytes, truncated form
    assert!(decode_answer(&[]).is_err());
    assert!(decode_answer(&[1u8]).is_err());
    assert!(decode_answer(&[2u8, 0u8]).is_err());
    assert!(decode_answer(&[1u8, 2u8]).is_err());
    assert!(decode_answer(&[1u8, 0u8, 0u8]).is_err());
    assert!(decode_answer(&[1u8, 1u8]).is_err());
    assert!(decode_answer(&[1u8, 1u8, 5u8, 0, 0, 0, 0, 0, 0, 0]).is_err());
}

#[test]
fn answer_rejects_surrogate_code_point() {
    // one-character username whose code point 0xD800 is no Unicode scalar
    let mut bytes = vec![1u8, 1u8];
    bytes.extend_from_slice(&1u64.to_le_bytes());
    bytes.extend_from_slice(&0xD800u32.to_le_bytes());
    bytes.extend_from_slice(&0u64.to_le_bytes());
    assert!(decode_answer(bytes.as_slice()).is_err());
}

#[test]
fn answer_accepts_rebuilt_wire_image() {
    // the same wire image laid out by hand decodes to the same value
    let mut bytes = vec![1u8, 1u8];
    bytes.extend_from_slice(&2u64.to_le_bytes());
    bytes.extend_from_slice(&(b'h' as u32).to_le_bytes());
    bytes.extend_from_slice(&(b'i' as u32).to_le_bytes());
    bytes.extend_from_slice(&1u64.to_le_bytes());
    bytes.extend_from_slice(&(b'x' as u32).to_le_bytes());
    match decode_answer(bytes.as_slice()) {
        Ok(AnswerFromQinit::Login(Some(back))) => {
            assert_eq!(back.username, "hi");
            assert_eq!(back.password, "x");
        }
        _ => panic!("expected Login(Some(..))"),
    }
}

#[test]
fn error_details_round_trip() {
    let details = ErrorDetails { error_reason: String::from("no listener bound") };
    let bytes = encode_error_details(&details);
    assert_eq!(bytes[0], 2u8);
    match decode_error_details(bytes.as_slice()) {
        Ok(back) => assert_eq!(back.error_reason, "no listener bound"),
        Err(_) => panic!("expected Ok"),
    }
}

#[test]
fn error_details_unrecognized_payloads_are_hard_errors() {
    assert!(decode_error_details(&[]).is_err());
    assert!(decode_error_details(&[1u8]).is_err());
    let mut trailing = encode_error_details(&ErrorDetails { error_reason: String::from("x") });
    trailing.push(0u8);
    assert!(decode_error_details(trailing.as_slice()).is_err());
}

#[test]
fn answer_and_error_details_never_confused() {
    // the two response shapes carry distinct leading tags
    let answer = encode_answer(&AnswerFromQinit::Login(None));
    let details = encode_error_details(&ErrorDetails { error_reason: String::from("boom") });
    assert!(decode_error_details(answer.as_slice()).is_err());
    assert!(decode_answer(details.as_slice()).is_err());
}
