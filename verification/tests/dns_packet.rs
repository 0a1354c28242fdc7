use dns_resolver::dns_packet::DnsPacket;
use dns_resolver::dns_record::{DnsRecord, Ipv4Address};

#[test]
fn get_random_a_ok() {
    // arrange
    let mut dns_packet = DnsPacket::new();
    let ips = vec![
        Ipv4Address::new(216, 239, 34, 10),
        Ipv4Address::new(216, 239, 38, 10),
    ];
    dns_packet.answers.push(DnsRecord::A {
        domain: String::from("google.com"),
        addr: Ipv4Address::new(216, 239, 34, 10),
        ttl: 87,
    });

    dns_packet.answers.push(DnsRecord::A {
        domain: String::from("yahoo.com"),
        addr: Ipv4Address::new(216, 239, 38, 10),
        ttl: 88,
    });

    // act
    let actual = dns_packet.get_random_a().unwrap();

    // assert
    assert!(ips.contains(&actual));
}

#[test]
fn get_ns_ok() {
    // arrange
    let mut dns_packet = DnsPacket::new();
    let expected = vec![
        // (domain, hostname)
        ("google.com".to_string(), "ns2.google.com.".to_string()),
        ("google.com".to_string(), "ns1.google.com.".to_string()),
    ];

    dns_packet.authorities.push(DnsRecord::NS {
        domain: String::from("google.com"),
        host: String::from("ns2.google.com."),
        ttl: 88,
    });

    dns_packet.authorities.push(DnsRecord::NS {
        domain: String::from("google.com"),
        host: String::from("ns1.google.com."),
        ttl: 91,
    });

    dns_packet.authorities.push(DnsRecord::NS {
        domain: String::from("yahoo.com"),
        host: String::from("ns1.yahoo.com."),
        ttl: 90,
    });

    // act
    let actual = dns_packet.get_ns("https://google.com");

    // assert
    assert_eq!(expected, actual);
}

#[test]
fn get_resolved_ns_ok() {
    // arrange
    let mut dns_packet = DnsPacket::new();
    let expected = vec![
        Ipv4Address::new(216, 239, 34, 10),
        Ipv4Address::new(216, 239, 32, 10),
    ];

    dns_packet.authorities.push(DnsRecord::NS {
        domain: String::from("google.com"),
        host: String::from("ns2.google.com."),
        ttl: 88,
    });

    dns_packet.authorities.push(DnsRecord::NS {
        domain: String::from("google.com"),
        host: String::from("ns1.google.com."),
        ttl: 91,
    });

    dns_packet.authorities.push(DnsRecord::NS {
        domain: String::from("yahoo.com"),
        host: String::from("ns1.yahoo.com."),
        ttl: 90,
    });

    dns_packet.resources.push(DnsRecord::A {
        domain: String::from("ns2.google.com."),
        addr: Ipv4Address::new(216, 239, 32, 10),
        ttl: 40,
    });

    dns_packet.resources.push(DnsRecord::A {
        domain: String::from("ns1.google.com."),
        addr: Ipv4Address::new(216, 239, 34, 10),
        ttl: 38,
    });

    // act
    let actual = dns_packet.get_resolved_ns("https://google.com").unwrap();

    // assert
    assert!(expected.contains(&actual));
}

#[test]
fn get_unsolved_ns_ok() {
    // arrange
    let mut dns_packet = DnsPacket::new();
    let expected = vec![
        String::from("ns1.google.com."),
        String::from("ns2.google.com."),
    ];

    dns_packet.authorities.push(DnsRecord::NS {
        domain: String::from("google.com"),
        host: String::from("ns2.google.com."),
        ttl: 88,
    });

    dns_packet.authorities.push(DnsRecord::NS {
        domain: String::from("google.com"),
        host: String::from("ns1.google.com."),
        ttl: 91,
    });

    dns_packet.authorities.push(DnsRecord::NS {
        domain: String::from("yahoo.com"),
        host: String::from("ns1.yahoo.com."),
        ttl: 90,
    });

    // act
    let actual = dns_packet.get_unsolved_ns("https://google.com").unwrap();

    // assert
    assert!(expected.contains(&actual));
}
