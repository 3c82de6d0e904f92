use laser_lattice::message::parse_message;
use laser_lattice::message::OscArg;
use laser_lattice::message::ParsedMessage;
use laser_lattice::message::ProtocolError;

#[test]
fn parses_keep_alive_from_timestamp_alone() {
    let args = vec![OscArg::Long(42)];
    match parse_message("/alive".to_string(), &args) {
        Ok(ParsedMessage::KeepAlive { layer_id, timestamp }) => {
            assert_eq!(layer_id, "/alive");
            assert_eq!(timestamp, 42);
        },
        other => panic!("expected a keep-alive, got {:?}", other.is_ok()),
    }
}

#[test]
fn keep_alive_reads_only_the_timestamp() {
    // whatever follows the timestamp is irrelevant on the keep-alive address
    let args = vec![OscArg::Long(9), OscArg::Int(99)];
    match parse_message("/alive".to_string(), &args) {
        Ok(ParsedMessage::KeepAlive { timestamp, .. }) => assert_eq!(timestamp, 9),
        _ => panic!("expected a keep-alive"),
    }
}

#[test]
fn keep_alive_still_needs_a_timestamp() {
    let r = parse_message("/alive".to_string(), &Vec::new());
    assert!(matches!(r, Err(ProtocolError::MissingTimestamp)));
}

#[test]
fn parses_data_message_with_outputs_and_blob() {
    let args = vec![
        OscArg::Long(1000),
        OscArg::Bool(false),
        OscArg::Int(0),
        OscArg::Int(2),
        OscArg::Blob(vec![1, 2, 3, 4, 5, 6, 7, 8]),
    ];
    match parse_message("/layer1".to_string(), &args) {
        Ok(ParsedMessage::Data(m)) => {
            assert_eq!(m.layer_id, "/layer1");
            assert_eq!(m.timestamp, 1000);
            assert!(!m.is_last);
            assert_eq!(m.outputs, vec![0, 2]);
            assert_eq!(m.payload, vec![1, 2, 3, 4, 5, 6, 7, 8]);
        },
        _ => panic!("expected a data message"),
    }
}

#[test]
fn missing_blob_means_empty_payload() {
    let args = vec![OscArg::Long(7), OscArg::Bool(true), OscArg::Int(4)];
    match parse_message("/layer2".to_string(), &args) {
        Ok(ParsedMessage::Data(m)) => {
            assert!(m.is_last);
            assert_eq!(m.outputs, vec![4]);
            assert!(m.payload.is_empty());
        },
        _ => panic!("expected a data message"),
    }
}

#[test]
fn rejects_empty_argument_list() {
    let r = parse_message("/layer1".to_string(), &Vec::new());
    assert!(matches!(r, Err(ProtocolError::MissingTimestamp)));
}

#[test]
fn rejects_mistyped_timestamp() {
    let args = vec![OscArg::Bool(true)];
    let r = parse_message("/layer1".to_string(), &args);
    assert!(matches!(r, Err(ProtocolError::MissingTimestamp)));
}

#[test]
fn rejects_missing_completion_flag() {
    let args = vec![OscArg::Long(5)];
    let r = parse_message("/layer1".to_string(), &args);
    assert!(matches!(r, Err(ProtocolError::MissingCompletionFlag)));
}

#[test]
fn rejects_out_of_range_output_index() {
    let args = vec![OscArg::Long(5), OscArg::Bool(true), OscArg::Int(5)];
    let r = parse_message("/layer1".to_string(), &args);
    assert!(matches!(r, Err(ProtocolError::OutputOutOfRange)));
    let args = vec![OscArg::Long(5), OscArg::Bool(true), OscArg::Int(-1)];
    let r = parse_message("/layer1".to_string(), &args);
    assert!(matches!(r, Err(ProtocolError::OutputOutOfRange)));
}

#[test]
fn rejects_stray_argument_in_output_list() {
    let args = vec![OscArg::Long(5), OscArg::Bool(true), OscArg::Int(1), OscArg::Long(3)];
    let r = parse_message("/layer1".to_string(), &args);
    assert!(matches!(r, Err(ProtocolError::UnexpectedArgument)));
}
