use echo_server::addr::{parse_ipv4, parse_port, PortError, ServerAddr};

fn args(a: &str, p: &str) -> Vec<String> {
    vec![String::from(""), String::from(a), String::from(p)]
}

#[test]
fn test_parse_args() {
    let args1 = args("127.0.0.1", "5534");
    assert!(matches!(ServerAddr::new(&args1), Ok(_)));
    assert_eq!([127, 0, 0, 1], ServerAddr::new(&args1).unwrap().addr);
    assert_eq!(5534u16, ServerAddr::new(&args1).unwrap().port);

    let args2 = args("554.0.0.1", "5534");
    assert!(matches!(ServerAddr::new(&args2), Err(_)));

    let args3 = args("10.7.0.189", "75534");
    assert!(matches!(ServerAddr::new(&args3), Err(_)));
}

#[test]
fn octet_out_of_range_is_refused() {
    assert_eq!(
        ServerAddr::new(&args("554.0.0.1", "5534")),
        Err(String::from("parse addr failed due to invalid IPv4 address syntax"))
    );
}

#[test]
fn port_out_of_range_is_refused() {
    assert_eq!(
        ServerAddr::new(&args("10.7.0.189", "75534")),
        Err(String::from("parse port failed due to number too large to fit in target type"))
    );
}

#[test]
fn wrong_argument_count_is_refused() {
    let two = vec![String::from(""), String::from("127.0.0.1")];
    assert_eq!(ServerAddr::new(&two), Err(String::from("not enough arguments")));
    assert_eq!(ServerAddr::new(&[]), Err(String::from("not enough arguments")));
    let mut four = args("127.0.0.1", "1");
    four.push(String::from("x"));
    assert_eq!(ServerAddr::new(&four), Err(String::from("not enough arguments")));
}

#[test]
fn port_errors_follow_reading_order() {
    assert_eq!(parse_port(b""), Err(PortError::Empty));
    assert_eq!(parse_port(b"+"), Err(PortError::InvalidDigit));
    assert_eq!(parse_port(b"-5"), Err(PortError::InvalidDigit));
    assert_eq!(parse_port(b"12a"), Err(PortError::InvalidDigit));
    assert_eq!(parse_port(b"99999x"), Err(PortError::TooLarge));
    assert_eq!(parse_port(b"9999x9"), Err(PortError::InvalidDigit));
    assert_eq!(parse_port(b"65536"), Err(PortError::TooLarge));
    assert_eq!(
        ServerAddr::new(&args("1.2.3.4", "")),
        Err(String::from("parse port failed due to cannot parse integer from empty string"))
    );
    assert_eq!(
        ServerAddr::new(&args("1.2.3.4", "8o")),
        Err(String::from("parse port failed due to invalid digit found in string"))
    );
}

#[test]
fn port_values() {
    assert_eq!(parse_port(b"0"), Ok(0));
    assert_eq!(parse_port(b"65535"), Ok(65535));
    assert_eq!(parse_port(b"+80"), Ok(80));
    assert_eq!(parse_port(b"0005534"), Ok(5534));
}

#[test]
fn ipv4_forms() {
    assert_eq!(parse_ipv4(b"0.0.0.0"), Some([0, 0, 0, 0]));
    assert_eq!(parse_ipv4(b"255.255.255.255"), Some([255, 255, 255, 255]));
    assert_eq!(parse_ipv4(b"10.7.0.189"), Some([10, 7, 0, 189]));
    assert_eq!(parse_ipv4(b"256.0.0.1"), None);
    assert_eq!(parse_ipv4(b"01.2.3.4"), None);
    assert_eq!(parse_ipv4(b"1.2.3"), None);
    assert_eq!(parse_ipv4(b"1.2.3.4.5"), None);
    assert_eq!(parse_ipv4(b"1..2.3"), None);
    assert_eq!(parse_ipv4(b"1.2.3.4."), None);
    assert_eq!(parse_ipv4(b""), None);
    assert_eq!(parse_ipv4(b"1.2.3.0004"), None);
    assert_eq!(parse_ipv4(b" 1.2.3.4"), None);
}
