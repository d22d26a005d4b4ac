use soulev::command_error::CommandError;
use soulev::elm327;
use soulev::kia;
use soulev::transport;

#[test]
fn the_internal_report_carries_its_code_and_message() {
    let e = CommandError::new_internal();
    assert_eq!(e.code, "internal_error".to_string());
    assert_eq!(e.message, "Internal error".to_string());
    assert!(e.parameters.is_none());
}

#[test]
fn the_not_connected_report_carries_its_code_and_message() {
    let e = CommandError::new_not_connected();
    assert_eq!(e.code, "not_connected".to_string());
    assert_eq!(e.message, "Not connected".to_string());
    assert!(e.parameters.is_none());
}

#[test]
fn protocol_failures_reduce_to_two_codes() {
    assert_eq!(
        CommandError::from_elm327(&elm327::Error::NotConnected).code,
        "not_connected".to_string()
    );
    assert_eq!(
        CommandError::from_elm327(&elm327::Error::Communication).code,
        "internal_error".to_string()
    );
    assert_eq!(
        CommandError::from_elm327(&elm327::Error::Other).code,
        "internal_error".to_string()
    );
}

#[test]
fn session_failures_reduce_to_two_codes() {
    assert_eq!(
        CommandError::from_kia(&kia::Error::NotConnected).code,
        "not_connected".to_string()
    );
    assert_eq!(CommandError::from_kia(&kia::Error::Other).code, "internal_error".to_string());
}

#[test]
fn transport_failures_keep_their_distinctions() {
    assert_eq!(
        CommandError::from_transport(transport::Error::ConnectionFailed).code,
        "connection_failed".to_string()
    );
    assert_eq!(
        CommandError::from_transport(transport::Error::NotConnected).code,
        "not_connected".to_string()
    );
    assert_eq!(
        CommandError::from_transport(transport::Error::IO).code,
        "internal_error".to_string()
    );
    assert_eq!(
        CommandError::from_transport(transport::Error::Other).code,
        "internal_error".to_string()
    );
}

#[test]
fn a_bad_parameter_keeps_its_name_and_value() {
    let e = CommandError::from_transport(transport::Error::InvalidParameter(
        "addr".to_string(),
        "empty address".to_string(),
    ));
    assert_eq!(e.code, "bad_parameter".to_string());
    assert_eq!(e.message, "Bad parameter".to_string());
    let ps = e.parameters.unwrap();
    assert_eq!(ps, vec!["addr".to_string(), "empty address".to_string()]);
}
