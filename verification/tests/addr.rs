use kadmium::PeerAddr;

#[test]
fn new_v4_and_port() {
    let addr = PeerAddr::new_v4([127, 0, 0, 1], 8080);
    assert_eq!(addr, PeerAddr::V4 { ip: 0x7f00_0001, port: 8080 });
    assert_eq!(addr.port(), 8080);
    let v6 = PeerAddr::V6 { ip: 1, port: 9, flowinfo: 0, scope_id: 0 };
    assert_eq!(v6.port(), 9);
}
