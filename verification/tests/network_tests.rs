use ipv4_subnet::{Cidr, Ipv4Address, Network};

#[test]
fn create_network() {
    let ip_address = Ipv4Address::new(0, 0, 0, 0);
    let cidr = Cidr::new(0).unwrap();
    let network = Network::new(ip_address, cidr).unwrap();
    let got_network_id = network.network_id();
    let want_network_id = Ipv4Address::new(0, 0, 0, 0);
    assert_eq!(got_network_id, want_network_id,);
    assert_eq!(*network.cidr(), *cidr,);

    let ip_address = Ipv4Address::new(10, 1, 5, 32);
    let cidr = Cidr::new(0).unwrap();
    let network = Network::new(ip_address, cidr).unwrap();
    let got_network_id = network.network_id();
    let want_network_id = Ipv4Address::new(0, 0, 0, 0);
    assert_eq!(got_network_id, want_network_id,);
    assert_eq!(*network.cidr(), *cidr,);

    let ip_address = Ipv4Address::new(192, 52, 224, 255);
    let cidr = Cidr::new(1).unwrap();
    let network = Network::new(ip_address, cidr).unwrap();
    let got_network_id = network.network_id();
    let want_network_id = Ipv4Address::new(128, 0, 0, 0);
    assert_eq!(got_network_id, want_network_id,);
    assert_eq!(*network.cidr(), *cidr,);

    let ip_address = Ipv4Address::new(180, 44, 125, 57);
    let cidr = Cidr::new(4).unwrap();
    let network = Network::new(ip_address, cidr).unwrap();
    let got_network_id = network.network_id();
    let want_network_id = Ipv4Address::new(176, 0, 0, 0);
    assert_eq!(got_network_id, want_network_id,);
    assert_eq!(*network.cidr(), *cidr,);

    let ip_address = Ipv4Address::new(1, 37, 12, 54);
    let cidr = Cidr::new(12).unwrap();
    let network = Network::new(ip_address, cidr).unwrap();
    let got_network_id = network.network_id();
    let want_network_id = Ipv4Address::new(1, 32, 0, 0);
    assert_eq!(got_network_id, want_network_id,);
    assert_eq!(*network.cidr(), *cidr,);

    let ip_address = Ipv4Address::new(152, 207, 23, 5);
    let cidr = Cidr::new(15).unwrap();
    let network = Network::new(ip_address, cidr).unwrap();
    let got_network_id = network.network_id();
    let want_network_id = Ipv4Address::new(152, 206, 0, 0);
    assert_eq!(got_network_id, want_network_id,);
    assert_eq!(*network.cidr(), *cidr,);

    let ip_address = Ipv4Address::new(152, 206, 23, 5);
    let cidr = Cidr::new(15).unwrap();
    let network = Network::new(ip_address, cidr).unwrap();
    let got_network_id = network.network_id();
    let want_network_id = Ipv4Address::new(152, 206, 0, 0);
    assert_eq!(got_network_id, want_network_id,);
    assert_eq!(*network.cidr(), *cidr,);

    let ip_address = Ipv4Address::new(1, 65, 157, 51);
    let cidr = Cidr::new(16).unwrap();
    let network = Network::new(ip_address, cidr).unwrap();
    let got_network_id = network.network_id();
    let want_network_id = Ipv4Address::new(1, 65, 0, 0);
    assert_eq!(got_network_id, want_network_id,);
    assert_eq!(*network.cidr(), *cidr,);

    let ip_address = Ipv4Address::new(8, 55, 156, 87);
    let cidr = Cidr::new(17).unwrap();
    let network = Network::new(ip_address, cidr).unwrap();
    let got_network_id = network.network_id();
    let want_network_id = Ipv4Address::new(8, 55, 128, 0);
    assert_eq!(got_network_id, want_network_id,);
    assert_eq!(*network.cidr(), *cidr,);

    let ip_address = Ipv4Address::new(8, 55, 56, 87);
    let cidr = Cidr::new(17).unwrap();
    let network = Network::new(ip_address, cidr).unwrap();
    let got_network_id = network.network_id();
    let want_network_id = Ipv4Address::new(8, 55, 0, 0);
    assert_eq!(got_network_id, want_network_id,);
    assert_eq!(*network.cidr(), *cidr,);

    let ip_address = Ipv4Address::new(125, 25, 18, 95);
    let cidr = Cidr::new(29).unwrap();
    let network = Network::new(ip_address, cidr).unwrap();
    let got_network_id = network.network_id();
    let want_network_id = Ipv4Address::new(125, 25, 18, 88);
    assert_eq!(got_network_id, want_network_id,);
    assert_eq!(*network.cidr(), *cidr,);

    let ip_address = Ipv4Address::new(33, 5, 87, 23);
    let cidr = Cidr::new(30).unwrap();
    let network = Network::new(ip_address, cidr).unwrap();
    let got_network_id = network.network_id();
    let want_network_id = Ipv4Address::new(33, 5, 87, 20);
    assert_eq!(got_network_id, want_network_id,);
    assert_eq!(*network.cidr(), *cidr,);

    let ip_address = Ipv4Address::new(45, 187, 24, 123);
    let cidr = Cidr::new(31).unwrap();
    let network = Network::new(ip_address, cidr).unwrap();
    let got_network_id = network.network_id();
    let want_network_id = Ipv4Address::new(45, 187, 24, 122);
    assert_eq!(got_network_id, want_network_id,);
    assert_eq!(*network.cidr(), *cidr,);

    let ip_address = Ipv4Address::new(45, 187, 24, 124);
    let cidr = Cidr::new(31).unwrap();
    let network = Network::new(ip_address, cidr).unwrap();
    let got_network_id = network.network_id();
    let want_network_id = Ipv4Address::new(45, 187, 24, 124);
    assert_eq!(got_network_id, want_network_id,);
    assert_eq!(*network.cidr(), *cidr,);

    let ip_address = Ipv4Address::new(45, 24, 11, 56);
    let cidr = Cidr::new(32).unwrap();
    let network = Network::new(ip_address, cidr).unwrap();
    let got_network_id = network.network_id();
    let want_network_id = Ipv4Address::new(45, 24, 11, 56);
    assert_eq!(got_network_id, want_network_id,);
    assert_eq!(*network.cidr(), *cidr,);

    let ip_address = Ipv4Address::new(255, 255, 255, 255);
    let cidr = Cidr::new(32).unwrap();
    let network = Network::new(ip_address, cidr).unwrap();
    let got_network_id = network.network_id();
    let want_network_id = Ipv4Address::new(255, 255, 255, 255);
    assert_eq!(got_network_id, want_network_id,);
    assert_eq!(*network.cidr(), *cidr,);
}

#[test]
fn get_first_host_address() {
    let network = Network::new(Ipv4Address::new(0, 0, 0, 0), Cidr::new(0).unwrap()).unwrap();
    assert_eq!(
        network.first_host_address(),
        Some(Ipv4Address::new(0, 0, 0, 1))
    );

    let network = Network::new(Ipv4Address::new(0, 0, 0, 0), Cidr::new(16).unwrap()).unwrap();
    assert_eq!(
        network.first_host_address(),
        Some(Ipv4Address::new(0, 0, 0, 1))
    );

    let network = Network::new(Ipv4Address::new(0, 0, 0, 0), Cidr::new(32).unwrap()).unwrap();
    assert_eq!(network.first_host_address(), None);

    let network =
        Network::new(Ipv4Address::new(255, 255, 255, 255), Cidr::new(0).unwrap()).unwrap();
    assert_eq!(
        network.first_host_address(),
        Some(Ipv4Address::new(0, 0, 0, 1))
    );

    let network =
        Network::new(Ipv4Address::new(255, 255, 255, 255), Cidr::new(19).unwrap()).unwrap();
    assert_eq!(
        network.first_host_address(),
        Some(Ipv4Address::new(255, 255, 224, 1))
    );

    let network =
        Network::new(Ipv4Address::new(255, 255, 255, 255), Cidr::new(32).unwrap()).unwrap();
    assert_eq!(network.first_host_address(), None);

    let network = Network::new(Ipv4Address::new(129, 5, 1, 33), Cidr::new(1).unwrap()).unwrap();
    assert_eq!(
        network.first_host_address(),
        Some(Ipv4Address::new(128, 0, 0, 1))
    );

    let network = Network::new(Ipv4Address::new(25, 255, 254, 1), Cidr::new(23).unwrap()).unwrap();
    assert_eq!(
        network.first_host_address(),
        Some(Ipv4Address::new(25, 255, 254, 1))
    );

    let network = Network::new(Ipv4Address::new(172, 18, 25, 9), Cidr::new(24).unwrap()).unwrap();
    assert_eq!(
        network.first_host_address(),
        Some(Ipv4Address::new(172, 18, 25, 1))
    );

    let network =
        Network::new(Ipv4Address::new(172, 18, 25, 137), Cidr::new(25).unwrap()).unwrap();
    assert_eq!(
        network.first_host_address(),
        Some(Ipv4Address::new(172, 18, 25, 129))
    );

    let network = Network::new(Ipv4Address::new(10, 55, 8, 13), Cidr::new(30).unwrap()).unwrap();
    assert_eq!(
        network.first_host_address(),
        Some(Ipv4Address::new(10, 55, 8, 13))
    );

    let network = Network::new(Ipv4Address::new(10, 55, 8, 12), Cidr::new(31).unwrap()).unwrap();
    assert_eq!(
        network.first_host_address(),
        Some(Ipv4Address::new(10, 55, 8, 12))
    );

    let network = Network::new(Ipv4Address::new(10, 55, 8, 13), Cidr::new(31).unwrap()).unwrap();
    assert_eq!(
        network.first_host_address(),
        Some(Ipv4Address::new(10, 55, 8, 12))
    );
}

#[test]
fn get_last_host_address() {
    let network = Network::new(Ipv4Address::new(0, 0, 0, 0), Cidr::new(0).unwrap()).unwrap();
    assert_eq!(
        network.last_host_address(),
        Some(Ipv4Address::new(255, 255, 255, 254))
    );

    let network = Network::new(Ipv4Address::new(0, 0, 0, 0), Cidr::new(19).unwrap()).unwrap();
    assert_eq!(
        network.last_host_address(),
        Some(Ipv4Address::new(0, 0, 31, 254))
    );

    let network = Network::new(Ipv4Address::new(0, 0, 0, 0), Cidr::new(32).unwrap()).unwrap();
    assert_eq!(network.last_host_address(), None);

    let network =
        Network::new(Ipv4Address::new(255, 255, 255, 255), Cidr::new(0).unwrap()).unwrap();
    assert_eq!(
        network.last_host_address(),
        Some(Ipv4Address::new(255, 255, 255, 254))
    );

    let network =
        Network::new(Ipv4Address::new(255, 255, 255, 255), Cidr::new(19).unwrap()).unwrap();
    assert_eq!(
        network.last_host_address(),
        Some(Ipv4Address::new(255, 255, 255, 254))
    );

    let network =
        Network::new(Ipv4Address::new(255, 255, 255, 255), Cidr::new(32).unwrap()).unwrap();
    assert_eq!(network.last_host_address(), None);

    let network = Network::new(Ipv4Address::new(129, 5, 1, 33), Cidr::new(1).unwrap()).unwrap();
    assert_eq!(
        network.last_host_address(),
        Some(Ipv4Address::new(255, 255, 255, 254))
    );

    let network = Network::new(Ipv4Address::new(25, 255, 254, 1), Cidr::new(23).unwrap()).unwrap();
    assert_eq!(
        network.last_host_address(),
        Some(Ipv4Address::new(25, 255, 255, 254))
    );

    let network = Network::new(Ipv4Address::new(172, 18, 25, 9), Cidr::new(24).unwrap()).unwrap();
    assert_eq!(
        network.last_host_address(),
        Some(Ipv4Address::new(172, 18, 25, 254))
    );

    let network =
        Network::new(Ipv4Address::new(172, 18, 25, 137), Cidr::new(25).unwrap()).unwrap();
    assert_eq!(
        network.last_host_address(),
        Some(Ipv4Address::new(172, 18, 25, 254))
    );

    let network = Network::new(Ipv4Address::new(10, 55, 8, 13), Cidr::new(30).unwrap()).unwrap();
    assert_eq!(
        network.last_host_address(),
        Some(Ipv4Address::new(10, 55, 8, 14))
    );

    let network = Network::new(Ipv4Address::new(10, 55, 8, 12), Cidr::new(31).unwrap()).unwrap();
    assert_eq!(
        network.last_host_address(),
        Some(Ipv4Address::new(10, 55, 8, 13))
    );

    let network = Network::new(Ipv4Address::new(10, 55, 8, 13), Cidr::new(31).unwrap()).unwrap();
    assert_eq!(
        network.last_host_address(),
        Some(Ipv4Address::new(10, 55, 8, 13))
    );
}

#[test]
fn get_broadcast_address() {
    let network = Network::new(Ipv4Address::new(0, 0, 0, 0), Cidr::new(0).unwrap()).unwrap();
    assert_eq!(
        network.broadcast_address(),
        Some(Ipv4Address::new(255, 255, 255, 255))
    );

    let network = Network::new(Ipv4Address::new(0, 0, 0, 0), Cidr::new(19).unwrap()).unwrap();
    assert_eq!(
        network.broadcast_address(),
        Some(Ipv4Address::new(0, 0, 31, 255))
    );

    let network = Network::new(Ipv4Address::new(0, 0, 0, 0), Cidr::new(32).unwrap()).unwrap();
    assert_eq!(network.broadcast_address(), None);

    let network =
        Network::new(Ipv4Address::new(255, 255, 255, 255), Cidr::new(0).unwrap()).unwrap();
    assert_eq!(
        network.broadcast_address(),
        Some(Ipv4Address::new(255, 255, 255, 255))
    );

    let network =
        Network::new(Ipv4Address::new(255, 255, 255, 255), Cidr::new(19).unwrap()).unwrap();
    assert_eq!(
        network.broadcast_address(),
        Some(Ipv4Address::new(255, 255, 255, 255))
    );

    let network =
        Network::new(Ipv4Address::new(255, 255, 255, 255), Cidr::new(32).unwrap()).unwrap();
    assert_eq!(network.broadcast_address(), None);

    let network = Network::new(Ipv4Address::new(129, 5, 1, 33), Cidr::new(2).unwrap()).unwrap();
    assert_eq!(
        network.broadcast_address(),
        Some(Ipv4Address::new(191, 255, 255, 255))
    );

    let network = Network::new(Ipv4Address::new(25, 255, 254, 1), Cidr::new(23).unwrap()).unwrap();
    assert_eq!(
        network.broadcast_address(),
        Some(Ipv4Address::new(25, 255, 255, 255))
    );

    let network = Network::new(Ipv4Address::new(172, 18, 25, 9), Cidr::new(24).unwrap()).unwrap();
    assert_eq!(
        network.broadcast_address(),
        Some(Ipv4Address::new(172, 18, 25, 255))
    );

    let network =
        Network::new(Ipv4Address::new(172, 18, 25, 137), Cidr::new(25).unwrap()).unwrap();
    assert_eq!(
        network.broadcast_address(),
        Some(Ipv4Address::new(172, 18, 25, 255))
    );

    let network =
        Network::new(Ipv4Address::new(172, 18, 25, 167), Cidr::new(27).unwrap()).unwrap();
    assert_eq!(
        network.broadcast_address(),
        Some(Ipv4Address::new(172, 18, 25, 191))
    );

    let network = Network::new(Ipv4Address::new(10, 55, 8, 13), Cidr::new(30).unwrap()).unwrap();
    assert_eq!(
        network.broadcast_address(),
        Some(Ipv4Address::new(10, 55, 8, 15))
    );

    let network = Network::new(Ipv4Address::new(10, 55, 8, 12), Cidr::new(31).unwrap()).unwrap();
    assert_eq!(
        network.broadcast_address(),
        Some(Ipv4Address::new(10, 55, 8, 13))
    );

    let network = Network::new(Ipv4Address::new(10, 55, 8, 13), Cidr::new(31).unwrap()).unwrap();
    assert_eq!(
        network.broadcast_address(),
        Some(Ipv4Address::new(10, 55, 8, 13))
    );
}

#[test]
fn networks_are_ordered_by_address_then_prefix() {
    let net = |a: u8, b: u8, c: u8, d: u8, prefix: u8| {
        Network::new(Ipv4Address::new(a, b, c, d), Cidr::new(prefix).unwrap()).unwrap()
    };
    assert!(net(10, 0, 0, 0, 8) < net(10, 0, 0, 0, 16));
    assert!(net(10, 0, 0, 0, 25) < net(10, 0, 1, 0, 24));
    assert!(net(10, 0, 0, 0, 24) > net(10, 0, 1, 0, 16));
    assert!(net(9, 255, 255, 0, 24) < net(10, 0, 0, 0, 8));
    assert!(net(200, 0, 0, 0, 8) > net(100, 0, 0, 0, 8));
    assert!(net(10, 0, 0, 0, 8) <= net(10, 0, 0, 7, 8));
    assert_eq!(net(10, 0, 0, 0, 8), net(10, 1, 2, 3, 8));
    assert_ne!(net(10, 0, 0, 0, 8), net(10, 0, 0, 0, 9));
    assert_eq!(net(10, 0, 0, 0, 8).cmp(&net(10, 0, 0, 0, 9)), std::cmp::Ordering::Less);
    assert_eq!(
        net(10, 0, 0, 0, 8).partial_cmp(&net(10, 0, 0, 0, 9)),
        Some(std::cmp::Ordering::Less)
    );
    assert_eq!(
        net(11, 0, 0, 0, 8).partial_cmp(&net(10, 0, 0, 0, 9)),
        Some(std::cmp::Ordering::Greater)
    );
    assert_eq!(
        net(10, 0, 0, 0, 8).partial_cmp(&net(10, 0, 0, 1, 8)),
        Some(std::cmp::Ordering::Equal)
    );

    assert!(Cidr::new(3).unwrap() < Cidr::new(21).unwrap());
    assert!(Cidr::new(32).unwrap() >= Cidr::new(32).unwrap());
    assert!(Ipv4Address::new(1, 0, 0, 0) > Ipv4Address::new(0, 255, 255, 255));
    assert!(Ipv4Address::new(128, 0, 0, 1) > Ipv4Address::new(127, 255, 255, 255));
}

#[test]
fn get_number_of_hosts() {
    let hosts = |prefix: u8| {
        Network::new(Ipv4Address::new(10, 20, 30, 40), Cidr::new(prefix).unwrap())
            .unwrap()
            .number_of_hosts()
    };
    assert_eq!(hosts(32), 0);
    assert_eq!(hosts(31), 2);
    assert_eq!(hosts(30), 2);
    assert_eq!(hosts(29), 6);
    assert_eq!(hosts(24), 254);
    assert_eq!(hosts(16), 65_534);
    assert_eq!(hosts(1), 2_147_483_646);
    assert_eq!(hosts(0), 4_294_967_294);
}

#[test]
fn masking_twice_is_masking_once() {
    for prefix in 0u8..=32 {
        let cidr = Cidr::new(prefix).unwrap();
        let once = Network::new(Ipv4Address::new(203, 119, 85, 171), cidr).unwrap();
        let twice = Network::new(once.network_id(), cidr).unwrap();
        assert_eq!(once, twice);
        assert_eq!(once.network_id().to_bits(), 0xcb77_55ab & cidr.to_bitmask());
        assert_eq!(once.cidr(), cidr);
    }
}

#[test]
fn host_addresses_step_in_the_last_octet() {
    for prefix in 0u8..=30 {
        let network =
            Network::new(Ipv4Address::new(203, 119, 85, 171), Cidr::new(prefix).unwrap()).unwrap();
        let [a, b, c, d] = network.network_id().octets();
        assert_eq!(network.first_host_address().unwrap().octets(), [a, b, c, d + 1]);
        let [e, f, g, h] = network.broadcast_address().unwrap().octets();
        assert_eq!(network.last_host_address().unwrap().octets(), [e, f, g, h - 1]);
    }
    let network = Network::new(Ipv4Address::new(10, 0, 255, 255), Cidr::new(16).unwrap()).unwrap();
    assert_eq!(network.first_host_address(), Some(Ipv4Address::new(10, 0, 0, 1)));
    assert_eq!(network.last_host_address(), Some(Ipv4Address::new(10, 0, 255, 254)));
}

#[test]
fn point_to_point_and_single_address_networks() {
    let network = Network::new(Ipv4Address::new(10, 55, 8, 12), Cidr::new(31).unwrap()).unwrap();
    assert_eq!(network.first_host_address(), Some(Ipv4Address::new(10, 55, 8, 12)));
    assert_eq!(network.last_host_address(), Some(Ipv4Address::new(10, 55, 8, 13)));
    assert_eq!(network.broadcast_address(), Some(Ipv4Address::new(10, 55, 8, 13)));

    let network = Network::new(Ipv4Address::new(45, 24, 11, 56), Cidr::new(32).unwrap()).unwrap();
    assert_eq!(network.broadcast_address(), None);
    assert_eq!(network.first_host_address(), None);
    assert_eq!(network.last_host_address(), None);
    assert_eq!(network.number_of_hosts(), 0);
}
