use kron_mesh::listen::{
    advertised_public_ipv4, detect_lan_ipv4, detect_public_ipv4, format_explorer_open_line,
    format_lan_address_line, format_p2p_listen_line, format_public_explorer_url,
    ipv4s_from_fib_trie, is_addr_in_use, is_public_routable_ipv4, is_usable_lan_ipv4,
    port_already_in_use_message, port_auto_candidates, prefer_private, push_unique_usable,
    UNIX_EADDRINUSE, WINDOWS_EADDRINUSE,
};

#[test]
fn in_use_hint_matches_termux_copy() {
    let msg = port_already_in_use_message("P2P", 8000, "--port", None);
    assert_eq!(
        msg,
        "P2P port 8000 already in use (error 98).\n\
         Stop the old process: pkill -f kron-phone\n\
         Or use another port: --port 8001"
    );
    let explorer = port_already_in_use_message("Explorer", 8080, "--explorer-port", None);
    assert!(explorer.contains("Explorer port 8080 already in use (error 98)."));
    assert!(explorer.contains("pkill -f kron-phone"));
    assert!(explorer.contains("--explorer-port 8081"));
}

#[test]
fn in_use_is_told_by_kind_or_code() {
    assert!(is_addr_in_use(true, None));
    assert!(is_addr_in_use(false, Some(UNIX_EADDRINUSE)));
    assert!(is_addr_in_use(false, Some(WINDOWS_EADDRINUSE)));
    assert!(!is_addr_in_use(false, Some(13)));
    assert!(!is_addr_in_use(false, None));
    assert!(port_already_in_use_message("P2P", 1, "--port", Some(10048)).contains("(error 10048)"));
    assert!(port_already_in_use_message("P2P", 65535, "--port", None).contains("--port "));
}

#[test]
fn port_auto_default_is_single_port() {
    let v: Vec<u16> = port_auto_candidates(8000, false);
    assert_eq!(v, vec![8000]);
    let v: Vec<u16> = port_auto_candidates(8000, true);
    assert_eq!(v, vec![8000, 8001, 8002, 8003, 8004]);
}

#[test]
fn usable_lan_ipv4_skips_loopback_and_unspecified() {
    assert!(!is_usable_lan_ipv4([0, 0, 0, 0]));
    assert!(!is_usable_lan_ipv4([127, 0, 0, 1]));
    assert!(!is_usable_lan_ipv4([255, 255, 255, 255]));
    assert!(is_usable_lan_ipv4([192, 168, 1, 42]));
    assert!(is_usable_lan_ipv4([10, 0, 0, 8]));
}

#[test]
fn bind_all_and_lan_log_lines() {
    assert_eq!(format_p2p_listen_line(8000), "P2P listening 0.0.0.0:8000");
    assert_eq!(
        format_lan_address_line(Some([192, 168, 1, 42]), 8000),
        "LAN: 192.168.1.42:8000"
    );
    assert_eq!(
        format_lan_address_line(None, 8000),
        "LAN: unknown (listening on all interfaces)"
    );
    assert_eq!(
        format_explorer_open_line(Some([192, 168, 1, 42]), 8080),
        "http://192.168.1.42:8080"
    );
    assert_eq!(
        format_explorer_open_line(None, 8080),
        "open explorer from PC: http://<this-phone-WiFi-IP>:8080"
    );
    assert_eq!(
        format_explorer_open_line(Some([0, 0, 0, 0]), 8080),
        "open explorer from PC: http://<this-phone-WiFi-IP>:8080"
    );
    assert_eq!(
        format_public_explorer_url([144, 91, 105, 244], 8080),
        "http://144.91.105.244:8080"
    );
    assert_eq!(format_public_explorer_url([0, 0, 0, 0], 8080), "http://144.91.105.244:8080");
    assert!(!is_public_routable_ipv4([10, 0, 0, 1]));
    assert!(!is_public_routable_ipv4([192, 168, 1, 1]));
    assert!(is_public_routable_ipv4([144, 91, 105, 244]));
    assert_eq!(
        advertised_public_ipv4(Some([203, 0, 113, 10]), None, [144, 91, 105, 244]),
        [203, 0, 113, 10]
    );
    let detected = detect_public_ipv4(&[[192, 168, 1, 2]], &[[8, 8, 8, 8]]);
    assert_eq!(
        advertised_public_ipv4(None, detected, [144, 91, 105, 244]),
        detected.unwrap_or([144, 91, 105, 244])
    );
    assert_eq!(advertised_public_ipv4(None, None, [144, 91, 105, 244]), [144, 91, 105, 244]);
}

#[test]
fn detect_lan_ipv4_never_returns_loopback() {
    let samples: [&[[u8; 4]]; 4] = [
        &[],
        &[[127, 0, 0, 1]],
        &[[0, 0, 0, 0], [127, 0, 0, 1], [10, 1, 2, 3]],
        &[[127, 0, 0, 1], [203, 0, 113, 5]],
    ];
    for routes in samples {
        for found in samples {
            if let Some(ip) = detect_lan_ipv4(routes, found) {
                assert!(is_usable_lan_ipv4(ip), "{ip:?}");
                assert_ne!(ip, [127, 0, 0, 1]);
                assert_ne!(ip, [0, 0, 0, 0]);
            }
        }
    }
    assert_eq!(detect_lan_ipv4(&[], &[[127, 0, 0, 1]]), None);
}

#[test]
fn fib_trie_picks_local_host_not_loopback() {
    let sample = "\
Main:
  +-- 127.0.0.0
     /8 host LOCAL
        |-- 127.0.0.1
           /32 host LOCAL
  +-- 192.168.1.0
     /24 link UNICAST
        |-- 192.168.1.42
           /32 host LOCAL
";
    let ips = ipv4s_from_fib_trie(sample);
    assert_eq!(ips, vec![[192, 168, 1, 42]]);
    assert_eq!(prefer_private(&ips), Some([192, 168, 1, 42]));
}

#[test]
fn usable_addresses_are_collected_once() {
    let mut out = vec![[10, 0, 0, 1]];
    push_unique_usable(&mut out, &[[10, 0, 0, 1], [127, 0, 0, 1], [8, 8, 8, 8]]);
    assert_eq!(out, vec![[10, 0, 0, 1], [8, 8, 8, 8]]);
    assert_eq!(prefer_private(&[[8, 8, 8, 8], [172, 16, 0, 1]]), Some([172, 16, 0, 1]));
    assert_eq!(prefer_private(&[[8, 8, 8, 8]]), Some([8, 8, 8, 8]));
}
