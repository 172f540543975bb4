use ms_ssrp::frame::{ReadStep, ResponseReader};
use ms_ssrp::grammar::FieldKey;
use ms_ssrp::parse::{classify_key, parse_payload_text, parse_record_text};
use ms_ssrp::{InstanceInfo, SsrpError};

fn decode(payload: &[u8]) -> Vec<InstanceInfo> {
    InstanceInfo::deserialize_server_response(payload).unwrap()
}

fn chars_of(text: &str) -> Vec<char> {
    text.chars().collect()
}

fn assert_untouched(info: &InstanceInfo) {
    assert_eq!(info.server_name, "");
    assert_eq!(info.instance_name, "");
    assert!(!info.is_clustered);
    assert_eq!(info.version, "");
    assert_eq!(info.protocol_info.len(), 0);
}

#[test]
fn new_instance_is_empty() {
    assert_untouched(&InstanceInfo::new());
}

#[test]
fn sample_payload_gives_one_instance() {
    let list = decode(
        b"ServerName;HOST1;InstanceName;SQLEXPRESS;IsClustered;No;Version;15.0.2000.5;tcp;1433;;",
    );
    assert_eq!(list.len(), 1);
    let info = &list[0];
    assert_eq!(info.server_name, "HOST1");
    assert_eq!(info.instance_name, "SQLEXPRESS");
    assert!(!info.is_clustered);
    assert_eq!(info.version, "15.0.2000.5");
    assert_eq!(info.protocol_info.len(), 1);
    assert_eq!(info.protocol_info.get("tcp"), Some(&"1433".to_string()));
    assert_eq!(info.protocol_info.get("np"), None);
}

#[test]
fn clustered_only_on_yes() {
    assert!(decode(b"IsClustered;Yes;;")[0].is_clustered);
    assert!(!decode(b"IsClustered;No;;")[0].is_clustered);
    assert!(!decode(b"IsClustered;yes;;")[0].is_clustered);
    assert!(!decode(b"IsClustered;YES;;")[0].is_clustered);
    assert!(!decode(b"IsClustered;Yes ;;")[0].is_clustered);
    assert!(!decode(b"IsClustered;true;;")[0].is_clustered);
    assert!(!decode(b"IsClustered;Y;;")[0].is_clustered);
}

#[test]
fn later_clustering_value_wins() {
    assert!(!decode(b"IsClustered;Yes;IsClustered;No;;")[0].is_clustered);
    assert!(decode(b"IsClustered;No;IsClustered;Yes;;")[0].is_clustered);
}

#[test]
fn empty_payload_gives_nothing() {
    assert_eq!(decode(b"").len(), 0);
    assert_eq!(parse_payload_text("").len(), 0);
}

#[test]
fn payload_of_separators_gives_nothing() {
    assert_eq!(decode(b";;").len(), 0);
    assert_eq!(decode(b";;;;").len(), 0);
}

#[test]
fn records_come_in_order() {
    let list = decode(b"ServerName;A;InstanceName;ONE;;ServerName;B;InstanceName;TWO;;ServerName;C;;");
    assert_eq!(list.len(), 3);
    assert_eq!(list[0].server_name, "A");
    assert_eq!(list[0].instance_name, "ONE");
    assert_eq!(list[1].server_name, "B");
    assert_eq!(list[1].instance_name, "TWO");
    assert_eq!(list[2].server_name, "C");
    assert_eq!(list[2].instance_name, "");
}

#[test]
fn last_record_needs_no_separator() {
    let list = decode(b"ServerName;A;;ServerName;B");
    assert_eq!(list.len(), 2);
    assert_eq!(list[1].server_name, "B");
}

#[test]
fn first_empty_record_ends_the_reading() {
    let list = decode(b"ServerName;A;;;;ServerName;B;;");
    assert_eq!(list.len(), 1);
    assert_eq!(list[0].server_name, "A");
}

#[test]
fn leading_empty_record_hides_everything() {
    assert_eq!(decode(b";;ServerName;A;;").len(), 0);
}

#[test]
fn both_endpoints_are_kept() {
    let list = decode(b"ServerName;H;tcp;1433;np;\\\\H\\pipe\\sql\\query;;");
    assert_eq!(list.len(), 1);
    assert_eq!(list[0].protocol_info.len(), 2);
    assert_eq!(list[0].protocol_info.get("tcp"), Some(&"1433".to_string()));
    assert_eq!(list[0].protocol_info.get("np"), Some(&"\\\\H\\pipe\\sql\\query".to_string()));
}

#[test]
fn later_value_replaces_earlier_one() {
    let list = decode(b"ServerName;A;tcp;1;ServerName;B;tcp;2;;");
    assert_eq!(list.len(), 1);
    assert_eq!(list[0].server_name, "B");
    assert_eq!(list[0].protocol_info.len(), 1);
    assert_eq!(list[0].protocol_info.get("tcp"), Some(&"2".to_string()));
}

#[test]
fn unknown_keys_are_ignored() {
    let list = decode(b"via;H:1433;ServerName;H;rpc;H;servername;x;TCP;9;;");
    assert_eq!(list.len(), 1);
    assert_eq!(list[0].server_name, "H");
    assert_eq!(list[0].protocol_info.len(), 0);
}

#[test]
fn dangling_key_is_dropped() {
    let list = decode(b"ServerName;H;Version");
    assert_eq!(list.len(), 1);
    assert_eq!(list[0].server_name, "H");
    assert_eq!(list[0].version, "");
    let alone = decode(b"ServerName");
    assert_eq!(alone.len(), 1);
    assert_untouched(&alone[0]);
}

#[test]
fn record_without_known_keys_gives_an_empty_instance() {
    let list = decode(b"foo;bar;;");
    assert_eq!(list.len(), 1);
    assert_untouched(&list[0]);
}

#[test]
fn keys_are_read_at_even_positions_only() {
    let list = decode(b"x;ServerName;HOST;InstanceName;;");
    assert_eq!(list.len(), 1);
    assert_untouched(&list[0]);
}

#[test]
fn record_that_starts_with_a_separator_character() {
    let list = decode(b"ServerName;A;;;ServerName;X;;");
    assert_eq!(list.len(), 2);
    assert_eq!(list[0].server_name, "A");
    assert_untouched(&list[1]);
}

#[test]
fn value_at_the_end_of_a_record_may_be_missing() {
    let list = decode(b"ServerName;H;Version;");
    assert_eq!(list.len(), 1);
    assert_eq!(list[0].server_name, "H");
    assert_eq!(list[0].version, "");
}

#[test]
fn invalid_bytes_become_replacement_characters() {
    let list = decode(b"ServerName;H\xffST;InstanceName;\xc3;;");
    assert_eq!(list.len(), 1);
    assert_eq!(list[0].server_name, "H\u{fffd}ST");
    assert_eq!(list[0].instance_name, "\u{fffd}");
}

#[test]
fn text_beyond_ascii_is_kept() {
    let list = decode("ServerName;h\u{f6}st;Version;\u{4e2d}\u{6587};;".as_bytes());
    assert_eq!(list.len(), 1);
    assert_eq!(list[0].server_name, "h\u{f6}st");
    assert_eq!(list[0].version, "\u{4e2d}\u{6587}");
}

#[test]
fn text_and_bytes_decode_alike() {
    let text = "ServerName;A;tcp;1;;ServerName;B;np;p;;";
    let from_text = parse_payload_text(text);
    let from_bytes = decode(text.as_bytes());
    assert_eq!(from_text.len(), 2);
    assert_eq!(from_bytes.len(), 2);
    for at in 0..2 {
        assert_eq!(from_text[at].server_name, from_bytes[at].server_name);
        assert_eq!(from_text[at].protocol_info.get("tcp"), from_bytes[at].protocol_info.get("tcp"));
        assert_eq!(from_text[at].protocol_info.get("np"), from_bytes[at].protocol_info.get("np"));
    }
}

#[test]
fn one_record_at_a_time() {
    let info = parse_record_text("InstanceName;MSSQLSERVER;IsClustered;Yes;Version;16.0.1000.6");
    assert_eq!(info.server_name, "");
    assert_eq!(info.instance_name, "MSSQLSERVER");
    assert!(info.is_clustered);
    assert_eq!(info.version, "16.0.1000.6");
    assert_untouched(&parse_record_text(""));
}

#[test]
fn keys_are_told_apart_exactly() {
    assert_eq!(classify_key(&chars_of("ServerName")), Some(FieldKey::ServerName));
    assert_eq!(classify_key(&chars_of("InstanceName")), Some(FieldKey::InstanceName));
    assert_eq!(classify_key(&chars_of("IsClustered")), Some(FieldKey::IsClustered));
    assert_eq!(classify_key(&chars_of("Version")), Some(FieldKey::Version));
    assert_eq!(classify_key(&chars_of("np")), Some(FieldKey::NamedPipe));
    assert_eq!(classify_key(&chars_of("tcp")), Some(FieldKey::Tcp));
    assert_eq!(classify_key(&chars_of("")), None);
    assert_eq!(classify_key(&chars_of("ServerNam")), None);
    assert_eq!(classify_key(&chars_of("ServerName ")), None);
    assert_eq!(classify_key(&chars_of("servername")), None);
    assert_eq!(classify_key(&chars_of("via")), None);
}

#[test]
fn store_sets_one_field() {
    let mut info = InstanceInfo::new();
    info.store(FieldKey::Version, "1.2");
    info.store(FieldKey::NamedPipe, "pipe");
    info.store(FieldKey::IsClustered, "Yes");
    assert_eq!(info.server_name, "");
    assert_eq!(info.version, "1.2");
    assert!(info.is_clustered);
    assert_eq!(info.protocol_info.get("np"), Some(&"pipe".to_string()));
    assert_eq!(info.protocol_info.get("tcp"), None);
    info.store(FieldKey::IsClustered, "No");
    assert!(!info.is_clustered);
}

#[test]
fn first_instance_of_none_is_not_found() {
    let result = InstanceInfo::first_instance(Vec::new());
    assert_eq!(result.err(), Some(SsrpError::InstanceNotFound));
    let from_empty_payload = InstanceInfo::first_instance(decode(b""));
    assert_eq!(from_empty_payload.err(), Some(SsrpError::InstanceNotFound));
}

#[test]
fn first_instance_is_the_first_record() {
    let list = decode(b"InstanceName;ONE;;InstanceName;TWO;;InstanceName;THREE;;");
    let first = InstanceInfo::first_instance(list).unwrap();
    assert_eq!(first.instance_name, "ONE");
}

#[test]
fn errors_describe_themselves() {
    assert_eq!(SsrpError::InvalidResponseHeader.message(), "invalid server response header id");
    assert_eq!(SsrpError::InstanceNotFound.message(), "cannot find instance");
}

#[test]
fn response_round_trip() {
    let payload = b"ServerName;HOST1;InstanceName;SQLEXPRESS;IsClustered;No;Version;15.0.2000.5;tcp;1433;;ServerName;HOST1;InstanceName;PROD;IsClustered;Yes;Version;16.0.1000.6;tcp;1434;np;\\\\HOST1\\pipe\\MSSQL$PROD\\sql\\query;;";
    let mut frame = vec![0x05u8, (payload.len() % 256) as u8, (payload.len() / 256) as u8];
    frame.extend_from_slice(payload);

    let mut reader = ResponseReader::new();
    assert_eq!(reader.receive(&frame[..100]), Ok(ReadStep::ReceiveMore));
    assert_eq!(reader.receive(&frame[100..]), Ok(ReadStep::Finished));
    let list = decode(reader.payload().unwrap());

    assert_eq!(list.len(), 2);
    assert_eq!(list[0].server_name, "HOST1");
    assert_eq!(list[0].instance_name, "SQLEXPRESS");
    assert!(!list[0].is_clustered);
    assert_eq!(list[0].version, "15.0.2000.5");
    assert_eq!(list[0].protocol_info.len(), 1);
    assert_eq!(list[0].protocol_info.get("tcp"), Some(&"1433".to_string()));
    assert_eq!(list[1].server_name, "HOST1");
    assert_eq!(list[1].instance_name, "PROD");
    assert!(list[1].is_clustered);
    assert_eq!(list[1].version, "16.0.1000.6");
    assert_eq!(list[1].protocol_info.len(), 2);
    assert_eq!(list[1].protocol_info.get("tcp"), Some(&"1434".to_string()));
    assert_eq!(
        list[1].protocol_info.get("np"),
        Some(&"\\\\HOST1\\pipe\\MSSQL$PROD\\sql\\query".to_string())
    );
}

#[test]
fn default_instance_is_empty() {
    assert_untouched(&InstanceInfo::default());
}

#[test]
fn many_records_in_one_payload() {
    let mut payload = Vec::new();
    for _ in 0..4000 {
        payload.extend_from_slice(b"InstanceName;I;;");
    }
    assert!(payload.len() <= 65535);
    let list = decode(&payload);
    assert_eq!(list.len(), 4000);
    assert_eq!(list[0].instance_name, "I");
    assert_eq!(list[3999].instance_name, "I");
}

#[test]
fn many_fields_in_one_record() {
    let mut payload = Vec::new();
    for at in 0..8000 {
        payload.extend_from_slice(if at % 2 == 0 { b"tcp;12;" } else { b"tcp;34;" });
    }
    assert!(payload.len() <= 65535);
    let list = decode(&payload);
    assert_eq!(list.len(), 1);
    assert_eq!(list[0].protocol_info.len(), 1);
    assert_eq!(list[0].protocol_info.get("tcp"), Some(&"34".to_string()));
}
