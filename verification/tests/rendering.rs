use gts_port_cfg::script::{branch_text, internal_address, peers_of, resolve_peer};
use gts_port_cfg::derive_graph;
use gts_port_cfg::{
    default_declared_ports, default_flavor, default_image, default_ports, derive_explicit,
    script_generation_ports, Adjacency, Config, DSLConfig, Device, Host, Link, Stage, Testbed,
    TopologyError,
};

fn plain_host(name: &str, ip: &str) -> Host {
    Host::new(name.to_string(), ip.to_string(), "ams".to_string())
}

fn wired_host(name: &str, ip: &str, devices: &[(&str, &str)]) -> Host {
    let mut h = plain_host(name, ip);
    for (device, link) in devices {
        h.devices.push(Device { name: device.to_string(), link: link.to_string() });
    }
    h
}

fn testbed(hosts: Vec<Host>) -> Config {
    Config {
        testbed: Testbed { id: "bed".to_string(), description: "Two hosts".to_string(), hosts },
    }
}

fn graph_of(hosts: Vec<Host>) -> DSLConfig {
    DSLConfig {
        description: String::new(),
        id: String::new(),
        hosts,
        link: Vec::new(),
        adjacents: Vec::new(),
    }
}

#[test]
fn defaults_are_the_documented_ones() {
    assert_eq!(default_ports(), 0);
    assert_eq!(default_declared_ports(), 28);
    assert_eq!(default_image(), "Ubuntu-18.04.qcow2");
    assert_eq!(default_flavor(), "c2r2h20");
    let h = plain_host("h1", "10.0.0.1");
    assert_eq!(h.flavor, "c2r2h20");
    assert_eq!(h.image, "Ubuntu-18.04.qcow2");
    assert_eq!(h.free_ports, 0);
    assert_eq!(h.used_ports, 0);
    assert!(h.devices.is_empty());
    assert_eq!(h.location, "ams");
}

#[test]
fn link_block_text() {
    let link = Link { id: "link1".to_string() };
    assert_eq!(
        link.serialize(),
        "    link {\n        id = \"link1\"\n        port { id = \"src\"}\n        port { id = \"dst\"}\n    }\n"
    );
}

#[test]
fn host_block_reserves_one_port() {
    let mut h = plain_host("node1", "172.16.0.108");
    h.free_ports = 1;
    h.used_ports = 2;
    h.flavor = "c4r4h20".to_string();
    assert_eq!(
        h.serialize(),
        "    host {\n        id = \"node1\"\n        location = \"ams\"\n        imageId = \"Ubuntu-18.04.qcow2\"\n        flavorId = \"c4r4h20\"\n        port { id = \"p1\" }\n        port { id = \"p2\" }\n        port { id = \"p3\" }\n        port { id = \"p4\" }\n    }\n"
    );
    let bare = plain_host("node2", "172.16.0.109");
    assert_eq!(bare.serialize().matches("port { id").count(), 1);
}

#[test]
fn host_block_counts_ports_past_nine() {
    let mut h = plain_host("node1", "172.16.0.108");
    h.free_ports = 10;
    let text = h.serialize();
    assert!(text.contains("        port { id = \"p9\" }\n        port { id = \"p10\" }\n        port { id = \"p11\" }\n    }\n"));
    assert_eq!(text.matches("port { id").count(), 11);
}

#[test]
fn adjacency_line_writes_the_port_above_the_index() {
    let a = Adjacency {
        host1_id: "h1".to_string(),
        host1_port: 9,
        link_name: "link4".to_string(),
        link_side: "dst".to_string(),
    };
    assert_eq!(a.serialize(), "    adjacency h1.p10, link4.dst\n");
    let top = Adjacency {
        host1_id: "h".to_string(),
        host1_port: usize::MAX,
        link_name: "l".to_string(),
        link_side: "src".to_string(),
    };
    let above = (usize::MAX as u128) + 1;
    assert_eq!(top.serialize(), format!("    adjacency h.p{}, l.src\n", above));
}

#[test]
fn description_of_a_two_host_mesh() {
    let graph: DSLConfig =
        testbed(vec![plain_host("h1", "10.0.0.1"), plain_host("h2", "10.0.0.2")]).into();
    let expected = "bed {\n    id = \"bed\"\n    description = \"Two hosts\"\n    host {\n        id = \"h1\"\n        location = \"ams\"\n        imageId = \"Ubuntu-18.04.qcow2\"\n        flavorId = \"c2r2h20\"\n        port { id = \"p1\" }\n        port { id = \"p2\" }\n    }\n    host {\n        id = \"h2\"\n        location = \"ams\"\n        imageId = \"Ubuntu-18.04.qcow2\"\n        flavorId = \"c2r2h20\"\n        port { id = \"p1\" }\n        port { id = \"p2\" }\n    }\n    link {\n        id = \"link1\"\n        port { id = \"src\"}\n        port { id = \"dst\"}\n    }\n    adjacency h1.p2, link1.src\n    adjacency h2.p2, link1.dst\n}\n";
    assert_eq!(graph.serialize(), expected);
}

#[test]
fn description_holds_each_host_once_and_each_attachment_once() {
    let hosts: Vec<Host> =
        (1..=4).map(|n| plain_host(&format!("h{}", n), &format!("10.0.0.{}", n))).collect();
    let graph: DSLConfig = testbed(hosts).into();
    let text = graph.serialize();
    assert_eq!(text.matches("    host {\n").count(), 4);
    assert_eq!(text.matches("    link {\n").count(), 6);
    for h in &graph.hosts {
        assert_eq!(text.matches(&format!("        id = \"{}\"\n", h.hostname)).count(), 1);
        for d in &h.devices {
            let lines = text
                .lines()
                .filter(|l| {
                    l.starts_with(&format!("    adjacency {}.p", h.hostname))
                        && (l.ends_with(&format!(", {}.src", d.link))
                            || l.ends_with(&format!(", {}.dst", d.link)))
                })
                .count();
            assert_eq!(lines, 1);
        }
    }
}

#[test]
fn description_of_an_empty_testbed() {
    let graph: DSLConfig = testbed(Vec::new()).into();
    assert_eq!(
        graph.serialize(),
        "bed {\n    id = \"bed\"\n    description = \"Two hosts\"\n}\n"
    );
}

#[test]
fn port_numbers_of_both_modes() {
    let meshed: DSLConfig =
        testbed(vec![plain_host("h1", "10.0.0.1"), plain_host("h2", "10.0.0.2")]).into();
    assert!(meshed.serialize().contains("    adjacency h1.p2, link1.src\n"));
    let matched = derive_explicit(testbed(vec![
        wired_host("h1", "10.0.0.1", &[("ens6", "link1")]),
        wired_host("h2", "10.0.0.2", &[("ens6", "link1")]),
    ]))
    .unwrap();
    assert!(matched.serialize().contains("    adjacency h1.p1, link1.src\n"));
    assert!(matched.serialize().contains("    adjacency h2.p1, link1.dst\n"));
}

#[test]
fn internal_addresses_count_from_one() {
    assert_eq!(internal_address(0), "10.42.42.1");
    assert_eq!(internal_address(9), "10.42.42.10");
    assert_eq!(internal_address(254), "10.42.42.255");
    assert_eq!(internal_address(255), "10.42.42.256");
}

#[test]
fn script_of_a_two_host_mesh() {
    let graph: DSLConfig =
        testbed(vec![plain_host("h1", "10.0.0.1"), plain_host("h2", "10.0.0.2")]).into();
    let expected = "#! /bin/sh\nIP_ADDRESS=$(ip -f inet addr show ens3 | sed -En -e 's/.*inet ([0-9.]+).*/\\1/p')\n\ncase $IP_ADDRESS in\n  10.0.0.1)\n    sudo hostnamectl set-hostname h1\n\n    sudo ip link set dev ens7 down\n    sudo ip addr flush dev ens7\n    sudo ip addr add 10.42.42.1 dev ens7\n    sudo ip link set dev ens7 up\n    sudo ip route add 10.42.42.2 dev ens7\n    ;;\n  10.0.0.2)\n    sudo hostnamectl set-hostname h2\n\n    sudo ip link set dev ens7 down\n    sudo ip addr flush dev ens7\n    sudo ip addr add 10.42.42.2 dev ens7\n    sudo ip link set dev ens7 up\n    sudo ip route add 10.42.42.1 dev ens7\n    ;;\nesac\n";
    assert_eq!(script_generation_ports(graph).unwrap(), expected);
}

#[test]
fn script_of_no_hosts() {
    let expected = "#! /bin/sh\nIP_ADDRESS=$(ip -f inet addr show ens3 | sed -En -e 's/.*inet ([0-9.]+).*/\\1/p')\n\ncase $IP_ADDRESS in\nesac\n";
    assert_eq!(script_generation_ports(graph_of(Vec::new())).unwrap(), expected);
}

#[test]
fn script_visits_devices_in_name_order() {
    let hosts = vec![
        wired_host("h1", "10.0.0.1", &[("ens8", "b"), ("ens10", "c"), ("ens7", "a")]),
        wired_host("h2", "10.0.0.2", &[("ens7", "a")]),
        wired_host("h3", "10.0.0.3", &[("ens7", "b")]),
        wired_host("h4", "10.0.0.4", &[("ens7", "c")]),
    ];
    let text = branch_text(&hosts, 0).unwrap();
    let routes: Vec<&str> = text.lines().filter(|l| l.contains("route add")).collect();
    assert_eq!(
        routes,
        vec![
            "    sudo ip route add 10.42.42.4 dev ens10",
            "    sudo ip route add 10.42.42.2 dev ens7",
            "    sudo ip route add 10.42.42.3 dev ens8",
        ]
    );
    assert!(text.starts_with("  10.0.0.1)\n    sudo hostnamectl set-hostname h1\n"));
    assert!(text.ends_with("    ;;\n"));
}

#[test]
fn script_is_the_same_for_any_order_of_devices() {
    let one = vec![
        wired_host("h1", "10.0.0.1", &[("ens7", "a"), ("ens8", "b")]),
        wired_host("h2", "10.0.0.2", &[("ens7", "a"), ("ens8", "b")]),
    ];
    let other = vec![
        wired_host("h1", "10.0.0.1", &[("ens8", "b"), ("ens7", "a")]),
        wired_host("h2", "10.0.0.2", &[("ens8", "b"), ("ens7", "a")]),
    ];
    let first = script_generation_ports(graph_of(one)).unwrap();
    let again = script_generation_ports(graph_of(other)).unwrap();
    assert_eq!(first, again);
}

#[test]
fn script_refuses_a_link_without_peer() {
    let hosts = vec![
        wired_host("h1", "10.0.0.1", &[("ens7", "a")]),
        wired_host("h2", "10.0.0.2", &[("ens7", "b")]),
    ];
    let fault = script_generation_ports(graph_of(hosts)).unwrap_err();
    assert_eq!(
        fault,
        TopologyError::UnderConnected { link: "a".to_string(), host: "h1".to_string() }
    );
    assert_eq!(fault.message(), "ERROR: link a is only connected to host h1");
    assert_eq!(fault.exit_code(Stage::Render), 3);
}

#[test]
fn script_refuses_a_link_with_two_peers() {
    let hosts = vec![
        wired_host("h1", "10.0.0.1", &[("ens7", "a")]),
        wired_host("h2", "10.0.0.2", &[("ens7", "a")]),
        wired_host("h3", "10.0.0.3", &[("ens7", "a")]),
    ];
    let fault = script_generation_ports(graph_of(hosts)).unwrap_err();
    assert_eq!(
        fault,
        TopologyError::OverConnected {
            link: "a".to_string(),
            hosts: vec!["h2".to_string(), "h3".to_string()],
        }
    );
    assert_eq!(fault.message(), "ERROR: link a is connected to too many hosts h2, h3");
    assert_eq!(fault.exit_code(Stage::Render), 3);
}

#[test]
fn peer_is_found_by_hostname() {
    let hosts = vec![
        wired_host("h1", "10.0.0.1", &[("ens7", "a")]),
        wired_host("h2", "10.0.0.2", &[("ens9", "a")]),
    ];
    assert_eq!(resolve_peer(&hosts, &"h1".to_string(), &"a".to_string()), Ok(1));
    assert_eq!(resolve_peer(&hosts, &"h2".to_string(), &"a".to_string()), Ok(0));
    assert!(resolve_peer(&hosts, &"h3".to_string(), &"a".to_string()).is_err());
}

#[test]
fn messages_name_the_link_and_the_hosts() {
    let none = TopologyError::NotConnected { link: "linkA".to_string() };
    assert_eq!(none.message(), "ERROR: link linkA is not part of any host");
    let one = TopologyError::UnderConnected { link: "linkA".to_string(), host: "h1".to_string() };
    assert_eq!(one.message(), "ERROR: link linkA is only connected to host h1");
    let many = TopologyError::OverConnected {
        link: "linkA".to_string(),
        hosts: vec!["h1".to_string(), "h2".to_string(), "h3".to_string()],
    };
    assert_eq!(many.message(), "ERROR: link linkA is connected to too many hosts h1, h2, h3");
    let single = TopologyError::OverConnected {
        link: "linkA".to_string(),
        hosts: vec!["h1".to_string()],
    };
    assert_eq!(single.message(), "ERROR: link linkA is connected to too many hosts h1");
    let empty = TopologyError::OverConnected { link: "linkA".to_string(), hosts: Vec::new() };
    assert_eq!(empty.message(), "ERROR: link linkA is connected to too many hosts ");
}

#[test]
fn exit_codes_tell_the_faults_of_a_derivation_apart() {
    let none = TopologyError::NotConnected { link: "l".to_string() };
    let one = TopologyError::UnderConnected { link: "l".to_string(), host: "h".to_string() };
    let many = TopologyError::OverConnected { link: "l".to_string(), hosts: Vec::new() };
    assert_eq!(none.exit_code(Stage::Derive), 3);
    assert_eq!(one.exit_code(Stage::Derive), 4);
    assert_eq!(many.exit_code(Stage::Derive), 5);
    assert_eq!(none.exit_code(Stage::Render), 3);
    assert_eq!(one.exit_code(Stage::Render), 3);
    assert_eq!(many.exit_code(Stage::Render), 3);
}

#[test]
fn peers_leave_out_the_hosts_of_the_owner_name() {
    let hosts = vec![
        wired_host("h1", "10.0.0.1", &[("ens7", "a")]),
        wired_host("h2", "10.0.0.2", &[("ens7", "a")]),
        wired_host("h1", "10.0.0.3", &[("ens7", "a")]),
        wired_host("h4", "10.0.0.4", &[("ens7", "b")]),
    ];
    assert_eq!(peers_of(&hosts, &"h1".to_string(), &"a".to_string()), vec![1]);
    assert_eq!(peers_of(&hosts, &"h2".to_string(), &"a".to_string()), vec![0, 2]);
    assert!(peers_of(&hosts, &"h4".to_string(), &"b".to_string()).is_empty());
}

#[test]
fn scripts_of_derived_graphs_are_rendered() {
    for count in 0..=6usize {
        let hosts: Vec<Host> = (1..=count)
            .map(|n| plain_host(&format!("h{}", n), &format!("10.0.0.{}", n)))
            .collect();
        let graph = derive_graph(testbed(hosts)).unwrap();
        let text = script_generation_ports(graph).unwrap();
        assert_eq!(text.matches("set-hostname").count(), count);
        assert_eq!(text.matches("route add").count(), count * count.saturating_sub(1));
    }
    let graph = derive_graph(testbed(vec![
        wired_host("h1", "10.0.0.1", &[("ens6", "a")]),
        wired_host("h2", "10.0.0.2", &[("ens6", "a"), ("ens7", "b")]),
        wired_host("h3", "10.0.0.3", &[("ens6", "b")]),
    ]))
    .unwrap();
    let text = script_generation_ports(graph).unwrap();
    assert!(text.contains("  10.0.0.2)\n    sudo hostnamectl set-hostname h2\n\n    sudo ip link set dev ens6 down\n    sudo ip addr flush dev ens6\n    sudo ip addr add 10.42.42.2 dev ens6\n    sudo ip link set dev ens6 up\n    sudo ip route add 10.42.42.1 dev ens6\n\n    sudo ip link set dev ens7 down\n    sudo ip addr flush dev ens7\n    sudo ip addr add 10.42.42.2 dev ens7\n    sudo ip link set dev ens7 up\n    sudo ip route add 10.42.42.3 dev ens7\n    ;;\n"));
}
