use localhost::config::parse_config_str;
use localhost::listener::{create_listener, endpoints, listener_skipped, parse_ipv4, Opened};

#[test]
fn addresses() {
    assert_eq!(parse_ipv4("0.0.0.0"), Ok(0));
    assert_eq!(parse_ipv4("127.0.0.1"), Ok(0x7f00_0001u32.to_be()));
    assert_eq!(parse_ipv4("255.254.253.252"), Ok(0xfffe_fdfcu32.to_be()));
    assert_eq!(parse_ipv4("1.2.3.4").unwrap().to_ne_bytes(), [1, 2, 3, 4]);
    assert_eq!(parse_ipv4("1.2.3"), Err("Invalid host address: 1.2.3".to_string()));
    assert_eq!(parse_ipv4("1.2.3.4.5"), Err("Invalid host address: 1.2.3.4.5".to_string()));
    assert_eq!(parse_ipv4("localhost"), Err("Invalid host address: localhost".to_string()));
    assert_eq!(parse_ipv4("1.2.x.256"), Err("Invalid IP octet: x".to_string()));
    assert_eq!(parse_ipv4("1.2.3.256"), Err("Invalid IP octet: 256".to_string()));
}

#[test]
fn all_endpoints_in_order() {
    let c = parse_config_str(
        "server {\nhost 1.1.1.1;\nlisten 1;\nlisten 2;\n}\nserver {\nlisten 3;\n}\n",
    )
    .unwrap();
    assert_eq!(
        endpoints(&c),
        vec![
            ("1.1.1.1".to_string(), 1),
            ("1.1.1.1".to_string(), 2),
            ("0.0.0.0".to_string(), 3)
        ]
    );
}

#[test]
fn opening_a_listener() {
    assert_eq!(create_listener("h", 1, Opened::Listening { fd: 5 }), (Ok(5), None));
    assert_eq!(
        create_listener("h", 1, Opened::NoSocket { errno: 24 }),
        (Err("socket() failed: errno 24".to_string()), None)
    );
    assert_eq!(
        create_listener("h", 1, Opened::Unusable { message: "m".to_string() }),
        (Err("m".to_string()), None)
    );
    assert_eq!(
        create_listener("h", 81, Opened::BindFailed { fd: 5, errno: 98 }),
        (Err("bind() failed on h:81: errno 98".to_string()), Some(5))
    );
    assert_eq!(
        create_listener("h", 1, Opened::ListenFailed { fd: 5, errno: 98 }),
        (Err("listen() failed: errno 98".to_string()), Some(5))
    );
}

#[test]
fn skipped_listeners() {
    assert_eq!(
        listener_skipped("h", 80, "why"),
        "Warning: could not start listener h:80 (why) \u{2014} skipping it, other servers continue"
    );
}
