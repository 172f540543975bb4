use ms_ssrp::InstanceInfo;

#[test]
fn list_request_is_the_tag_alone() {
    assert_eq!(InstanceInfo::get_instance_list_request_data(), vec![0x03u8]);
}

#[test]
fn named_request_wraps_the_name() {
    let request = InstanceInfo::get_specified_instance_request_data("SQLEXPRESS");
    let mut expected = vec![0x04u8];
    expected.extend_from_slice(b"SQLEXPRESS");
    expected.push(0);
    assert_eq!(request, expected);
    assert_eq!(request.len(), "SQLEXPRESS".len() + 2);
}

#[test]
fn named_request_for_empty_name() {
    assert_eq!(InstanceInfo::get_specified_instance_request_data(""), vec![0x04u8, 0x00]);
}

#[test]
fn named_request_keeps_a_name_of_32_bytes() {
    let name = "ABCDEFGHIJKLMNOPQRSTUVWXYZ012345";
    assert_eq!(name.len(), 32);
    let request = InstanceInfo::get_specified_instance_request_data(name);
    assert_eq!(request.len(), 34);
    assert_eq!(request[0], 0x04);
    assert_eq!(&request[1..33], name.as_bytes());
    assert_eq!(request[33], 0);
}

#[test]
fn named_request_cuts_a_name_of_33_bytes() {
    let name = "ABCDEFGHIJKLMNOPQRSTUVWXYZ0123456";
    assert_eq!(name.len(), 33);
    let request = InstanceInfo::get_specified_instance_request_data(name);
    assert_eq!(request.len(), 34);
    assert_eq!(&request[1..33], &name.as_bytes()[..32]);
    assert_eq!(request[33], 0);
}

#[test]
fn named_request_cuts_a_long_name() {
    let name = "an-instance-name-that-is-much-longer-than-the-limit";
    let request = InstanceInfo::get_specified_instance_request_data(name);
    assert_eq!(request.len(), 34);
    assert_eq!(request[0], 0x04);
    assert_eq!(&request[1..33], &name.as_bytes()[..32]);
    assert_eq!(*request.last().unwrap(), 0);
}

#[test]
fn named_request_cuts_between_the_bytes_of_a_character() {
    let mut name = String::new();
    for _ in 0..31 {
        name.push('a');
    }
    name.push('\u{e9}');
    assert_eq!(name.len(), 33);
    let request = InstanceInfo::get_specified_instance_request_data(&name);
    assert_eq!(request.len(), 34);
    assert_eq!(&request[1..33], &name.as_bytes()[..32]);
    assert_eq!(request[32], 0xc3);
    assert_eq!(request[33], 0);
}

#[test]
fn named_request_ends_in_nul_for_every_length() {
    let mut name = String::new();
    for len in 0..70usize {
        let request = InstanceInfo::get_specified_instance_request_data(&name);
        let carried = if len <= 32 { len } else { 32 };
        assert_eq!(request.len(), carried + 2);
        assert_eq!(request[0], 0x04);
        assert_eq!(&request[1..carried + 1], &name.as_bytes()[..carried]);
        assert_eq!(request[carried + 1], 0);
        name.push('x');
    }
}
