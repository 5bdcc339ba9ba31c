use masterstat::{parse_servers_response, server_addresses, sorted_and_unique, ServerAddress};

fn addr(ip: &str, port: u16) -> ServerAddress {
    ServerAddress {
        ip: ip.to_string(),
        port,
    }
}

#[test]
fn test_parse_servers_response() {
    // invalid response header
    {
        let response = [0xff, 0xff];
        let result = parse_servers_response(&response);
        assert_eq!(result.unwrap_err().message(), "Invalid response");
    }

    // valid response
    {
        let response = [
            0xff, 0xff, 0xff, 0xff, 0x64, 0x0a, 192, 168, 1, 1, 0x75, 0x30, 192, 168, 1, 2, 0x75,
            0x30,
        ];
        let result = parse_servers_response(&response).unwrap();
        assert_eq!(result.len(), 2);
        assert_eq!(result[0].ip, "192.168.1.1");
        assert_eq!(result[0].port, 30000);
        assert_eq!(result[1].ip, "192.168.1.2");
        assert_eq!(result[1].port, 30000);
    }
}

#[test]
fn test_sorted_and_unique() {
    let server1_1 = addr("192.168.1.1", 1);
    let server1_2 = addr("192.168.1.1", 2);
    let server3 = addr("192.168.1.3", 1);
    let server4 = addr("192.168.1.4", 1);
    let servers = vec![
        server4.clone(),
        server4.clone(),
        server4.clone(),
        server1_1.clone(),
        server1_2.clone(),
        server3.clone(),
    ];
    assert_eq!(
        sorted_and_unique(&servers),
        vec![server1_1, server1_2, server3, server4]
    );
}

#[test]
fn sort_and_deduplicate_scenario() {
    let servers = vec![
        addr("1.1.1.4", 1),
        addr("1.1.1.4", 1),
        addr("1.1.1.4", 1),
        addr("1.1.1.1", 1),
        addr("1.1.1.1", 2),
        addr("1.1.1.3", 1),
    ];
    let expected = vec![
        addr("1.1.1.1", 1),
        addr("1.1.1.1", 2),
        addr("1.1.1.3", 1),
        addr("1.1.1.4", 1),
    ];
    assert_eq!(sorted_and_unique(&servers), expected);
}

#[test]
fn sorted_and_unique_is_idempotent() {
    let servers = vec![
        addr("10.0.0.2", 2),
        addr("2.0.0.1", 7),
        addr("10.0.0.2", 2),
        addr("10.0.0.10", 1),
    ];
    let once = sorted_and_unique(&servers);
    let twice = sorted_and_unique(&once);
    assert_eq!(once, twice);
}

#[test]
fn sorted_and_unique_empty() {
    let servers: Vec<ServerAddress> = vec![];
    assert_eq!(sorted_and_unique(&servers), vec![]);
}

#[test]
fn header_validation_rejects_everything_short_or_wrong() {
    // empty input
    assert!(parse_servers_response(&[]).is_err());
    // shorter than the header
    assert!(parse_servers_response(&[0xff, 0xff, 0xff, 0xff, 0x64]).is_err());
    // right length, one byte off
    assert!(parse_servers_response(&[0xff, 0xff, 0xff, 0xff, 0x64, 0x0b]).is_err());
    // a header alone is a valid, empty response
    let result = parse_servers_response(&[0xff, 0xff, 0xff, 0xff, 0x64, 0x0a]).unwrap();
    assert!(result.is_empty());
}

#[test]
fn trailing_partial_record_is_dropped() {
    let response = [
        0xff, 0xff, 0xff, 0xff, 0x64, 0x0a, // header
        192, 168, 1, 1, 0x75, 0x30, // one full record
        192, 168, 1, 2, 0x75, 0x30, // another full record
        10, 0, 0, // a partial record
    ];
    let result = parse_servers_response(&response).unwrap();
    assert_eq!(result.len(), 2);
    assert_eq!(result[0].ip, "192.168.1.1");
    assert_eq!(result[1].ip, "192.168.1.2");
}

#[test]
fn server_addresses_sorts_and_deduplicates_a_response() {
    let response = [
        0xff, 0xff, 0xff, 0xff, 0x64, 0x0a, // header
        192, 168, 1, 2, 0x75, 0x30, // out of order
        192, 168, 1, 1, 0x75, 0x30, //
        192, 168, 1, 2, 0x75, 0x30, // duplicate
    ];
    let result = server_addresses(&response).unwrap();
    assert_eq!(
        result,
        vec![addr("192.168.1.1", 30000), addr("192.168.1.2", 30000)]
    );
}

#[test]
fn server_addresses_propagates_the_error() {
    let result = server_addresses(&[0x00, 0x01]);
    assert_eq!(result.unwrap_err().message(), "Invalid response");
}

#[test]
fn merged_results_from_many_masters() {
    // The merge the fan-out performs: failing masters contribute
    // nothing, the successes' lists are concatenated and normalized.
    let from_first = vec![addr("2.2.2.2", 2), addr("1.1.1.1", 1)];
    let from_second: Vec<ServerAddress> = vec![]; // this master failed
    let from_third = vec![addr("1.1.1.1", 1), addr("3.3.3.3", 3)];

    let mut accumulated: Vec<ServerAddress> = vec![];
    accumulated.extend(from_first);
    accumulated.extend(from_second);
    accumulated.extend(from_third);

    assert_eq!(
        sorted_and_unique(&accumulated),
        vec![addr("1.1.1.1", 1), addr("2.2.2.2", 2), addr("3.3.3.3", 3)]
    );
}

#[test]
fn ip_strings_sort_lexicographically() {
    // "10.0.0.1" sorts before "2.0.0.1": string order, not numeric.
    let servers = vec![addr("2.0.0.1", 1), addr("10.0.0.1", 1)];
    assert_eq!(
        sorted_and_unique(&servers),
        vec![addr("10.0.0.1", 1), addr("2.0.0.1", 1)]
    );
}

#[test]
fn equal_ips_sort_by_port() {
    let servers = vec![addr("5.5.5.5", 300), addr("5.5.5.5", 2)];
    assert_eq!(
        sorted_and_unique(&servers),
        vec![addr("5.5.5.5", 2), addr("5.5.5.5", 300)]
    );
}
