use quic_events::datagram::{Datagram, Endpoint, IpAddress};

#[test]
fn round_trip() {
    let src = Endpoint { ip: IpAddress::V4(0x7f00_0001), port: 443 };
    let dst = Endpoint { ip: IpAddress::V4(0xc0a8_0101), port: 4433 };
    let payload = vec![1u8, 2, 3, 255];
    let d = Datagram::new(src, dst, payload.clone());
    assert_eq!(d.source(), src);
    assert_eq!(d.destination(), dst);
    assert_eq!(d.payload(), &payload);
}

#[test]
fn round_trip_empty_payload() {
    let src = Endpoint { ip: IpAddress::V6(1), port: 1 };
    let dst = Endpoint { ip: IpAddress::V6(2), port: 2 };
    let d = Datagram::new(src, dst, Vec::new());
    assert_eq!(d.source(), src);
    assert_eq!(d.destination(), dst);
    assert_eq!(d.payload(), &Vec::<u8>::new());
}

#[test]
fn payload_reads_back_byte_for_byte() {
    let src = Endpoint { ip: IpAddress::V4(0), port: 0 };
    let dst = Endpoint { ip: IpAddress::V4(1), port: 9 };
    let payload: Vec<u8> = (0u8..=9).collect();
    let d = Datagram::new(src, dst, payload);
    for (i, b) in d.payload().iter().enumerate() {
        assert_eq!(*b, i as u8);
    }
    assert_eq!(d.payload().len(), 10);
}

#[test]
fn equal_datagrams_compare_equal() {
    let src = Endpoint { ip: IpAddress::V6(0xfe80_0000_0000_0000_0000_0000_0000_0001), port: 5000 };
    let dst = Endpoint { ip: IpAddress::V4(0x0a00_0001), port: 5001 };
    let a = Datagram::new(src, dst, vec![9u8, 8]);
    let b = Datagram::new(src, dst, vec![9u8, 8]);
    assert_eq!(a, b);
    let c = Datagram::new(src, dst, vec![9u8]);
    assert_ne!(a, c);
}
