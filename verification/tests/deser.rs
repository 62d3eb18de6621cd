use linkseeker::addr::{IpAddress, SockAddr};
use linkseeker::client::compute_linkseeker_key;
use linkseeker::deser_utils::{SocketAddrCustom, VecCustom};

#[test]
fn deser_socket_addr() {
    let v4 = SockAddr {
        ip: IpAddress::V4 { bits: u32::from_be_bytes([1, 2, 3, 4]) },
        port: 1234,
    };
    let v6 = SockAddr {
        ip: IpAddress::V6 {
            bits: u128::from_be_bytes([
                1, 2, 3, 4, 5, 6, 7, 8, 9, 10, 11, 12, 13, 14, 15, 16,
            ]),
        },
        port: 1234,
    };

    let s4 = SocketAddrCustom(v4).to_text();
    let s6 = SocketAddrCustom(v6).to_text();

    let p4 = SocketAddrCustom::from_text(&s4).unwrap();
    let p6 = SocketAddrCustom::from_text(&s6).unwrap();
    assert_eq!(v4, p4.0);
    assert_eq!(v6, p6.0);
}

#[test]
fn deser_vec_custom() {
    let vempty: Vec<u16> = vec![];
    let v1: Vec<u16> = vec![25];

    let sempty = VecCustom(vempty.clone()).to_text();
    let s1 = VecCustom(v1.clone()).to_text();

    let pempty = VecCustom::from_text(&sempty).unwrap();
    let p1 = VecCustom::from_text(&s1).unwrap();
    assert_eq!(vempty.len(), pempty.0.len());
    assert_eq!(v1[0], p1.0[0]);
}

#[test]
fn socket_addr_custom_text_is_exact() {
    let a = SockAddr { ip: IpAddress::V4 { bits: 0x01020304 }, port: 1234 };
    assert_eq!(SocketAddrCustom(a).to_text(), b"40102030404d2".to_vec());
}

#[test]
fn socket_addr_custom_rejects_junk() {
    assert_eq!(SocketAddrCustom::from_text(b""), None);
    assert_eq!(SocketAddrCustom::from_text(b"5010203040000"), None);
    assert_eq!(SocketAddrCustom::from_text(b"401020304"), None);
    assert_eq!(SocketAddrCustom::from_text(b"4010203zz04d2"), None);
}

#[test]
fn vec_custom_text_is_exact() {
    assert_eq!(VecCustom(vec![1, 22, 333]).to_text(), b"1,22,333".to_vec());
}

#[test]
fn vec_custom_rejects_junk() {
    assert_eq!(VecCustom::from_text(b"1,,2"), None);
    assert_eq!(VecCustom::from_text(b"1,x"), None);
    assert_eq!(VecCustom::from_text(b"70000"), None);
}

#[test]
fn linkseeker_key_sums_octets() {
    assert_eq!(compute_linkseeker_key(IpAddress::V4 { bits: 0x01020304 }), 10);
    assert_eq!(compute_linkseeker_key(IpAddress::V4 { bits: 0xFF000001 }), 0);
    assert_eq!(compute_linkseeker_key(IpAddress::V6 { bits: 0x0100_0000_0000_0000_0000_0000_0000_0002 }), 3);
}
