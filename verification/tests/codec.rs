use linkseeker::addr::{IpAddress, SockAddr};
use linkseeker::data::{FromMiddlemanMsg, ToMiddlemanMsg};

fn v4(a: u8, b: u8, c: u8, d: u8, port: u16) -> SockAddr {
    let bits = u32::from_be_bytes([a, b, c, d]);
    SockAddr { ip: IpAddress::V4 { bits }, port }
}

#[test]
fn parse_deserialized_from_middleman() {
    let remote = v4(127, 0, 0, 1, 15555);
    let orig = FromMiddlemanMsg::PunchOrder { remote };
    let deser = FromMiddlemanMsg::parse(&orig.serialize()).unwrap();
    assert_eq!(orig, deser);
}

#[test]
fn parse_deserialized_to_middleman() {
    let orig = ToMiddlemanMsg::Request { id: 1234, use_proxy: true };
    let deser = ToMiddlemanMsg::parse(&orig.serialize()).unwrap();
    assert_eq!(orig, deser);
}

#[test]
fn serialize_register_is_exact() {
    assert_eq!(ToMiddlemanMsg::Register.serialize(), b"Uregister".to_vec());
}

#[test]
fn serialize_request_is_exact() {
    let m = ToMiddlemanMsg::Request { id: 42, use_proxy: false };
    assert_eq!(m.serialize(), b"Urequest/id=42/useproxy=0".to_vec());
}

#[test]
fn serialize_punchorder_is_exact() {
    let m = FromMiddlemanMsg::PunchOrder { remote: v4(198, 51, 100, 9, 4000) };
    assert_eq!(m.serialize(), b"Upunchorder/remote=198.51.100.9:4000".to_vec());
}

#[test]
fn serialize_proxyr_is_exact() {
    let m = FromMiddlemanMsg::ProxyResult { remote: v4(203, 0, 113, 7, 7000), ok: true };
    assert_eq!(m.serialize(), b"Uproxyr/remote=203.0.113.7:7000/ok=1".to_vec());
}

#[test]
fn parse_rejects_missing_magic() {
    assert_eq!(ToMiddlemanMsg::parse(b"register"), None);
    assert_eq!(ToMiddlemanMsg::parse(b""), None);
    assert_eq!(FromMiddlemanMsg::parse(b"Xpong/id=1"), None);
}

#[test]
fn parse_rejects_field_without_equals() {
    assert_eq!(ToMiddlemanMsg::parse(b"Uping/id=1/junk"), None);
    assert_eq!(ToMiddlemanMsg::parse(b"Uregister/nope"), None);
}

#[test]
fn parse_rejects_field_with_two_equals() {
    assert_eq!(ToMiddlemanMsg::parse(b"Uping/id=1=2"), None);
}

#[test]
fn parse_rejects_bad_values() {
    assert_eq!(ToMiddlemanMsg::parse(b"Uping/id=abc"), None);
    assert_eq!(ToMiddlemanMsg::parse(b"Uping/id=4294967296"), None);
    assert_eq!(ToMiddlemanMsg::parse(b"Urequest/id=1/useproxy=2"), None);
    assert_eq!(ToMiddlemanMsg::parse(b"Uproxy/remote=nonsense"), None);
}

#[test]
fn parse_accepts_max_id() {
    assert_eq!(
        ToMiddlemanMsg::parse(b"Uping/id=4294967295"),
        Some(ToMiddlemanMsg::Ping { id: 4294967295 })
    );
}

#[test]
fn parse_ignores_unknown_fields() {
    assert_eq!(
        ToMiddlemanMsg::parse(b"Uping/id=7/color=blue"),
        Some(ToMiddlemanMsg::Ping { id: 7 })
    );
    assert_eq!(
        ToMiddlemanMsg::parse(b"Urequest/extra=1/id=3/useproxy=1"),
        Some(ToMiddlemanMsg::Request { id: 3, use_proxy: true })
    );
}

#[test]
fn parse_rejects_missing_required_field() {
    assert_eq!(ToMiddlemanMsg::parse(b"Urequest/id=3"), None);
    assert_eq!(ToMiddlemanMsg::parse(b"Upunchcheck"), None);
    assert_eq!(FromMiddlemanMsg::parse(b"Uproxyr/ok=1"), None);
}

#[test]
fn parse_last_occurrence_wins() {
    assert_eq!(
        ToMiddlemanMsg::parse(b"Uping/id=1/id=2"),
        Some(ToMiddlemanMsg::Ping { id: 2 })
    );
    assert_eq!(ToMiddlemanMsg::parse(b"Uping/id=2/id=x"), None);
}

#[test]
fn round_trip_every_to_variant() {
    let remote = v4(10, 0, 0, 1, 9999);
    let msgs = vec![
        ToMiddlemanMsg::Register,
        ToMiddlemanMsg::Request { id: 0, use_proxy: false },
        ToMiddlemanMsg::Request { id: u32::MAX, use_proxy: true },
        ToMiddlemanMsg::PunchCheck { id: 5 },
        ToMiddlemanMsg::ProxyTo { remote },
        ToMiddlemanMsg::Ping { id: 7 },
    ];
    for m in msgs {
        assert_eq!(ToMiddlemanMsg::parse(&m.serialize()), Some(m));
    }
}

#[test]
fn round_trip_every_from_variant() {
    let remote = v4(203, 0, 113, 2, 6000);
    let msgs = vec![
        FromMiddlemanMsg::RegisterOk { id: 1 },
        FromMiddlemanMsg::RegisterErr { msg: b"no".to_vec() },
        FromMiddlemanMsg::RequestErr { msg: b"host code does not exist".to_vec() },
        FromMiddlemanMsg::PunchOrder { remote },
        FromMiddlemanMsg::PunchLinkseeker { port: 61990 },
        FromMiddlemanMsg::PunchCheckResult { ok: false },
        FromMiddlemanMsg::ProxyResult { remote, ok: true },
        FromMiddlemanMsg::Pong { id: 0 },
    ];
    for m in msgs {
        assert_eq!(FromMiddlemanMsg::parse(&m.serialize()), Some(m.clone()));
    }
}

#[test]
fn round_trip_ipv6_remote() {
    let remote = SockAddr { ip: IpAddress::V6 { bits: 1 }, port: 80 };
    let m = ToMiddlemanMsg::ProxyTo { remote };
    let bytes = m.serialize();
    assert_eq!(bytes, b"Uproxy/remote=[0:0:0:0:0:0:0:1]:80".to_vec());
    assert_eq!(ToMiddlemanMsg::parse(&bytes), Some(m));
}

#[test]
fn parse_compressed_ipv6() {
    assert_eq!(
        ToMiddlemanMsg::parse(b"Uproxy/remote=[::1]:80"),
        Some(ToMiddlemanMsg::ProxyTo {
            remote: SockAddr { ip: IpAddress::V6 { bits: 1 }, port: 80 }
        })
    );
    assert_eq!(
        ToMiddlemanMsg::parse(b"Uproxy/remote=[::]:80"),
        Some(ToMiddlemanMsg::ProxyTo {
            remote: SockAddr { ip: IpAddress::V6 { bits: 0 }, port: 80 }
        })
    );
    assert_eq!(
        ToMiddlemanMsg::parse(b"Uproxy/remote=[1::2]:80"),
        Some(ToMiddlemanMsg::ProxyTo {
            remote: SockAddr {
                ip: IpAddress::V6 { bits: (1u128 << 112) | 2 },
                port: 80
            }
        })
    );
    assert_eq!(
        ToMiddlemanMsg::parse(b"Uproxy/remote=[fe80::]:1"),
        Some(ToMiddlemanMsg::ProxyTo {
            remote: SockAddr {
                ip: IpAddress::V6 { bits: 0xfe80u128 << 112 },
                port: 1
            }
        })
    );
}

#[test]
fn parse_rejects_bad_ipv6() {
    assert_eq!(ToMiddlemanMsg::parse(b"Uproxy/remote=[:]:80"), None);
    assert_eq!(ToMiddlemanMsg::parse(b"Uproxy/remote=[1:2]:80"), None);
    assert_eq!(ToMiddlemanMsg::parse(b"Uproxy/remote=[1::2::3]:80"), None);
    assert_eq!(ToMiddlemanMsg::parse(b"Uproxy/remote=[1:2:3:4:5:6:7:8:9]:80"), None);
    assert_eq!(ToMiddlemanMsg::parse(b"Uproxy/remote=[::1]80"), None);
}

#[test]
fn parse_rejects_bad_ipv4() {
    assert_eq!(ToMiddlemanMsg::parse(b"Uproxy/remote=1.2.3:80"), None);
    assert_eq!(ToMiddlemanMsg::parse(b"Uproxy/remote=1.2.3.256:80"), None);
    assert_eq!(ToMiddlemanMsg::parse(b"Uproxy/remote=1.2.3.4:65536"), None);
    assert_eq!(ToMiddlemanMsg::parse(b"Uproxy/remote=1.2.3.4"), None);
}

#[test]
fn empty_message_field_round_trips() {
    let m = FromMiddlemanMsg::RegisterErr { msg: Vec::new() };
    assert_eq!(FromMiddlemanMsg::parse(&m.serialize()), Some(m));
}
