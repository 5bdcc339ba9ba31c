use masterstat::{RawServerAddress, ServerAddress};

#[test]
fn test_raw_server_address() {
    let raw_address = RawServerAddress::read_from(&[192, 168, 1, 1, 0x75, 0x30]).unwrap();
    assert_eq!(raw_address.ip, [192, 168, 1, 1]);
    assert_eq!(raw_address.port, 30000);
}

#[test]
fn test_server_address_from_raw_server_address() {
    let raw_address = RawServerAddress {
        ip: [192, 168, 1, 1],
        port: 30000,
    };
    let address = ServerAddress::from(raw_address);
    assert_eq!(address.ip, "192.168.1.1");
    assert_eq!(address.port, 30000);
}

#[test]
fn test_server_address_display() {
    let address = ServerAddress {
        ip: "192.168.1.1".to_string(),
        port: 30000,
    };
    assert_eq!(address.display(), "192.168.1.1:30000");
}

#[test]
fn read_from_rejects_wrong_lengths() {
    assert!(RawServerAddress::read_from(&[]).is_none());
    assert!(RawServerAddress::read_from(&[192, 168, 1, 1, 0x75]).is_none());
    assert!(RawServerAddress::read_from(&[192, 168, 1, 1, 0x75, 0x30, 0x00]).is_none());
}

#[test]
fn record_round_trip() {
    // Any four octets with a big-endian port come back as those values.
    let port: u16 = 0x1234;
    let record = [7, 0, 255, 3, (port / 256) as u8, (port % 256) as u8];
    let raw = RawServerAddress::read_from(&record).unwrap();
    let address = ServerAddress::from(raw);
    assert_eq!(address.ip, "7.0.255.3");
    assert_eq!(address.port, 4660);
}

#[test]
fn display_extremes() {
    let low = ServerAddress {
        ip: "0.0.0.0".to_string(),
        port: 0,
    };
    assert_eq!(low.display(), "0.0.0.0:0");
    let high = ServerAddress {
        ip: "255.255.255.255".to_string(),
        port: 65535,
    };
    assert_eq!(high.display(), "255.255.255.255:65535");
}
