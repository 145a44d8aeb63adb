use gts_port_cfg::matching::{
    attached, declared_link_list, declares_link, holds_name, hostnames_at, rank_of_link,
};
use gts_port_cfg::model::clone_devices;
use gts_port_cfg::mesh::{link_list, mesh_attachments, mesh_device_list};
use gts_port_cfg::{
    derive_explicit, derive_graph, resolve_link, Adjacency, Config, DSLConfig, Device, Host, Link,
    Testbed, TopologyError,
};

fn host(name: &str, ip: &str) -> Host {
    Host::new(name.to_string(), ip.to_string(), "ams".to_string())
}

fn host_with(name: &str, ip: &str, devices: &[(&str, &str)]) -> Host {
    let mut h = host(name, ip);
    for (device, link) in devices {
        h.devices.push(Device { name: device.to_string(), link: link.to_string() });
    }
    h
}

fn config(hosts: Vec<Host>) -> Config {
    Config {
        testbed: Testbed { id: "bed".to_string(), description: "a testbed".to_string(), hosts },
    }
}

fn adjacency(host: &str, port: usize, link: &str, side: &str) -> Adjacency {
    Adjacency {
        host1_id: host.to_string(),
        host1_port: port,
        link_name: link.to_string(),
        link_side: side.to_string(),
    }
}

fn device(name: &str, link: &str) -> Device {
    Device { name: name.to_string(), link: link.to_string() }
}

fn link(id: &str) -> Link {
    Link { id: id.to_string() }
}

fn numbered_hosts(count: usize) -> Vec<Host> {
    (1..=count).map(|n| host(&format!("h{}", n), &format!("10.0.0.{}", n))).collect()
}

#[test]
fn mesh_of_two_hosts_has_one_link() {
    let graph: DSLConfig = config(vec![host("h1", "10.0.0.1"), host("h2", "10.0.0.2")]).into();
    assert_eq!(graph.link, vec![link("link1")]);
    assert_eq!(
        graph.adjacents,
        vec![adjacency("h1", 1, "link1", "src"), adjacency("h2", 1, "link1", "dst")]
    );
    assert_eq!(graph.hosts[0].devices, vec![device("ens7", "link1")]);
    assert_eq!(graph.hosts[1].devices, vec![device("ens7", "link1")]);
    assert_eq!(graph.hosts[0].used_ports, 1);
    assert_eq!(graph.hosts[1].used_ports, 1);
    assert_eq!(graph.id, "bed");
    assert_eq!(graph.description, "a testbed");
}

#[test]
fn mesh_of_two_hosts_renders_second_ports() {
    let graph: DSLConfig = config(vec![host("h1", "10.0.0.1"), host("h2", "10.0.0.2")]).into();
    let text = graph.serialize();
    assert!(text.contains("adjacency h1.p2, link1.src"));
    assert!(text.contains("adjacency h2.p2, link1.dst"));
}

#[test]
fn mesh_of_three_hosts_in_pair_order() {
    let graph: DSLConfig = config(numbered_hosts(3)).into();
    assert_eq!(graph.link, vec![link("link1"), link("link2"), link("link3")]);
    assert_eq!(
        graph.adjacents,
        vec![
            adjacency("h1", 1, "link1", "src"),
            adjacency("h2", 1, "link1", "dst"),
            adjacency("h1", 2, "link2", "src"),
            adjacency("h3", 1, "link2", "dst"),
            adjacency("h2", 2, "link3", "src"),
            adjacency("h3", 2, "link3", "dst"),
        ]
    );
    assert_eq!(graph.hosts[0].devices, vec![device("ens7", "link1"), device("ens8", "link2")]);
    assert_eq!(graph.hosts[1].devices, vec![device("ens7", "link1"), device("ens8", "link3")]);
    assert_eq!(graph.hosts[2].devices, vec![device("ens7", "link2"), device("ens8", "link3")]);
}

#[test]
fn mesh_counts_links_and_attachments() {
    for count in 2..=9usize {
        let graph: DSLConfig = config(numbered_hosts(count)).into();
        assert_eq!(graph.link.len(), count * (count - 1) / 2);
        assert_eq!(graph.adjacents.len(), count * (count - 1));
        for h in &graph.hosts {
            let own = graph.adjacents.iter().filter(|a| a.host1_id == h.hostname).count();
            assert_eq!(own, count - 1);
            assert_eq!(h.devices.len(), count - 1);
            assert_eq!(h.used_ports, count - 1);
        }
    }
}

#[test]
fn mesh_link_names_pass_ten() {
    let graph: DSLConfig = config(numbered_hosts(5)).into();
    assert_eq!(graph.link.len(), 10);
    assert_eq!(graph.link[8], link("link9"));
    assert_eq!(graph.link[9], link("link10"));
    assert_eq!(graph.adjacents[18], adjacency("h4", 4, "link10", "src"));
    assert_eq!(graph.adjacents[19], adjacency("h5", 4, "link10", "dst"));
}

#[test]
fn mesh_of_one_host_and_of_none() {
    let graph: DSLConfig = config(numbered_hosts(1)).into();
    assert!(graph.link.is_empty());
    assert!(graph.adjacents.is_empty());
    assert!(graph.hosts[0].devices.is_empty());
    assert_eq!(graph.hosts[0].used_ports, 0);
    let empty: DSLConfig = config(Vec::new()).into();
    assert!(empty.hosts.is_empty());
    assert!(empty.link.is_empty());
    assert!(empty.adjacents.is_empty());
}

#[test]
fn mesh_replaces_declared_devices_and_counts_from_zero() {
    let mut first = host_with("h1", "10.0.0.1", &[("eth0", "old")]);
    first.used_ports = 5;
    first.free_ports = 3;
    let graph: DSLConfig = config(vec![first, host("h2", "10.0.0.2")]).into();
    assert_eq!(graph.hosts[0].devices, vec![device("ens7", "link1")]);
    assert_eq!(graph.hosts[0].used_ports, 1);
    assert_eq!(graph.hosts[0].free_ports, 3);
}

#[test]
fn mesh_device_numbers_follow_attachments() {
    let adjacents = mesh_attachments(&numbered_hosts(6));
    let devices = mesh_device_list(&adjacents, &"h6".to_string());
    let names: Vec<&str> = devices.iter().map(|d| d.name.as_str()).collect();
    assert_eq!(names, vec!["ens7", "ens8", "ens9", "ens10", "ens11"]);
    let links: Vec<&str> = devices.iter().map(|d| d.link.as_str()).collect();
    assert_eq!(links, vec!["link5", "link9", "link12", "link14", "link15"]);
}

#[test]
fn link_list_drops_repeats_of_the_name_before() {
    let adjacents = vec![
        adjacency("a", 0, "x", "src"),
        adjacency("b", 0, "x", "dst"),
        adjacency("a", 1, "y", "src"),
        adjacency("c", 0, "y", "dst"),
        adjacency("c", 1, "x", "src"),
    ];
    assert_eq!(link_list(&adjacents), vec![link("x"), link("y"), link("x")]);
    assert!(link_list(&Vec::new()).is_empty());
}

#[test]
fn explicit_chain_of_three_hosts() {
    let hosts = vec![
        host_with("h1", "10.0.0.1", &[("ens6", "linkA")]),
        host_with("h2", "10.0.0.2", &[("ens6", "linkB"), ("ens7", "linkA")]),
        host_with("h3", "10.0.0.3", &[("ens6", "linkB")]),
    ];
    let graph = derive_explicit(config(hosts)).unwrap();
    assert_eq!(graph.link, vec![link("linkA"), link("linkB")]);
    assert_eq!(
        graph.adjacents,
        vec![
            adjacency("h1", 0, "linkA", "src"),
            adjacency("h2", 0, "linkA", "dst"),
            adjacency("h2", 1, "linkB", "src"),
            adjacency("h3", 0, "linkB", "dst"),
        ]
    );
    assert_eq!(graph.hosts[1].devices, vec![device("ens6", "linkB"), device("ens7", "linkA")]);
    assert_eq!(graph.hosts[1].used_ports, 0);
    for name in ["linkA", "linkB"] {
        assert_eq!(graph.adjacents.iter().filter(|a| a.link_name == name).count(), 2);
    }
}

#[test]
fn explicit_links_are_seen_in_device_name_order() {
    let hosts = vec![
        host_with("h1", "10.0.0.1", &[("ens7", "right"), ("ens10", "left")]),
        host_with("h2", "10.0.0.2", &[("ens6", "left"), ("ens7", "right")]),
    ];
    assert_eq!(declared_link_list(&hosts), vec!["left".to_string(), "right".to_string()]);
    let graph = derive_explicit(config(hosts)).unwrap();
    assert_eq!(graph.link, vec![link("left"), link("right")]);
}

#[test]
fn explicit_over_connected_names_all_hosts() {
    let hosts = vec![
        host_with("h1", "10.0.0.1", &[("ens6", "linkA")]),
        host_with("h2", "10.0.0.2", &[("ens6", "linkA")]),
        host_with("h3", "10.0.0.3", &[("ens6", "linkA")]),
    ];
    let fault = derive_explicit(config(hosts)).unwrap_err();
    assert_eq!(
        fault,
        TopologyError::OverConnected {
            link: "linkA".to_string(),
            hosts: vec!["h1".to_string(), "h2".to_string(), "h3".to_string()],
        }
    );
}

#[test]
fn explicit_under_connected_names_the_host() {
    let hosts = vec![
        host_with("h1", "10.0.0.1", &[("ens6", "linkA"), ("ens7", "lonely")]),
        host_with("h2", "10.0.0.2", &[("ens6", "linkA")]),
    ];
    let fault = derive_explicit(config(hosts)).unwrap_err();
    assert_eq!(
        fault,
        TopologyError::UnderConnected { link: "lonely".to_string(), host: "h1".to_string() }
    );
}

#[test]
fn explicit_reports_the_first_fault() {
    let hosts = vec![
        host_with("h1", "10.0.0.1", &[("ens6", "many"), ("ens7", "one")]),
        host_with("h2", "10.0.0.2", &[("ens6", "many")]),
        host_with("h3", "10.0.0.3", &[("ens6", "many")]),
    ];
    let fault = derive_explicit(config(hosts)).unwrap_err();
    assert!(matches!(fault, TopologyError::OverConnected { .. }));
    let hosts = vec![
        host_with("h1", "10.0.0.1", &[("ens6", "one"), ("ens7", "many")]),
        host_with("h2", "10.0.0.2", &[("ens6", "many")]),
        host_with("h3", "10.0.0.3", &[("ens6", "many")]),
    ];
    let fault = derive_explicit(config(hosts)).unwrap_err();
    assert!(matches!(fault, TopologyError::UnderConnected { .. }));
}

#[test]
fn explicit_link_twice_on_one_host_counts_the_host_once() {
    let hosts = vec![
        host_with("h1", "10.0.0.1", &[("ens6", "linkA"), ("ens7", "linkA")]),
        host_with("h2", "10.0.0.2", &[("ens6", "linkA")]),
    ];
    let graph = derive_explicit(config(hosts)).unwrap();
    assert_eq!(graph.link, vec![link("linkA")]);
    assert_eq!(graph.adjacents.len(), 2);
}

#[test]
fn resolve_link_tells_the_three_faults_apart() {
    let hosts = vec![
        host_with("h1", "10.0.0.1", &[("ens6", "a"), ("ens7", "b"), ("ens8", "c")]),
        host_with("h2", "10.0.0.2", &[("ens6", "b"), ("ens7", "c")]),
        host_with("h3", "10.0.0.3", &[("ens6", "c")]),
    ];
    assert_eq!(
        resolve_link(&hosts, &"none".to_string()),
        Err(TopologyError::NotConnected { link: "none".to_string() })
    );
    assert_eq!(
        resolve_link(&hosts, &"a".to_string()),
        Err(TopologyError::UnderConnected { link: "a".to_string(), host: "h1".to_string() })
    );
    assert_eq!(
        resolve_link(&hosts, &"b".to_string()),
        Ok((adjacency("h1", 1, "b", "src"), adjacency("h2", 0, "b", "dst")))
    );
    assert!(matches!(
        resolve_link(&hosts, &"c".to_string()),
        Err(TopologyError::OverConnected { .. })
    ));
}

#[test]
fn attached_hosts_come_in_registry_order() {
    let hosts = vec![
        host_with("h1", "10.0.0.1", &[("ens6", "x")]),
        host_with("h2", "10.0.0.2", &[("ens6", "y")]),
        host_with("h3", "10.0.0.3", &[("ens6", "y"), ("ens7", "x")]),
    ];
    assert_eq!(attached(&hosts, &"x".to_string()), vec![0, 2]);
    assert_eq!(attached(&hosts, &"y".to_string()), vec![1, 2]);
    assert!(attached(&hosts, &"z".to_string()).is_empty());
}

#[test]
fn rank_counts_the_link_names_before() {
    let h = host_with("h1", "10.0.0.1", &[("e1", "delta"), ("e2", "alpha"), ("e3", "charlie")]);
    assert_eq!(rank_of_link(&h, &"alpha".to_string()), 0);
    assert_eq!(rank_of_link(&h, &"charlie".to_string()), 1);
    assert_eq!(rank_of_link(&h, &"delta".to_string()), 2);
    assert_eq!(rank_of_link(&h, &"zulu".to_string()), 3);
}

#[test]
fn derive_graph_picks_the_mode_by_declared_devices() {
    let meshed = derive_graph(config(numbered_hosts(3))).unwrap();
    assert_eq!(meshed.link.len(), 3);
    let hosts = vec![
        host_with("h1", "10.0.0.1", &[("ens6", "linkA")]),
        host("h2", "10.0.0.2"),
        host_with("h3", "10.0.0.3", &[("ens6", "linkA")]),
    ];
    let matched = derive_graph(config(hosts)).unwrap();
    assert_eq!(matched.link, vec![link("linkA")]);
    assert_eq!(
        matched.adjacents,
        vec![adjacency("h1", 0, "linkA", "src"), adjacency("h3", 0, "linkA", "dst")]
    );
    let faulty = vec![host_with("h1", "10.0.0.1", &[("ens6", "linkA")]), host("h2", "10.0.0.2")];
    assert!(derive_graph(config(faulty)).is_err());
}

#[test]
fn declared_links_are_found_on_a_host() {
    let h = host_with("h1", "10.0.0.1", &[("ens6", "x"), ("ens7", "y")]);
    assert!(declares_link(&h, &"x".to_string()));
    assert!(declares_link(&h, &"y".to_string()));
    assert!(!declares_link(&h, &"ens6".to_string()));
    assert!(!declares_link(&host("h2", "10.0.0.2"), &"x".to_string()));
}

#[test]
fn names_are_looked_up_and_collected() {
    let names = vec!["a".to_string(), "b".to_string()];
    assert!(holds_name(&names, &"b".to_string()));
    assert!(!holds_name(&names, &"c".to_string()));
    assert!(!holds_name(&Vec::new(), &"a".to_string()));
    let hosts = numbered_hosts(4);
    assert_eq!(hostnames_at(&hosts, &vec![3, 0, 3]), vec!["h4", "h1", "h4"]);
    assert!(hostnames_at(&hosts, &Vec::new()).is_empty());
}

#[test]
fn copies_are_equal_to_what_they_copy() {
    let h = host_with("h1", "10.0.0.1", &[("ens6", "x"), ("ens7", "y")]);
    assert_eq!(h.clone(), h);
    assert_eq!(clone_devices(&h.devices), h.devices);
    assert_eq!(h.devices[1].clone(), device("ens7", "y"));
}

#[test]
fn a_forced_fault_is_the_one_reported() {
    let valid = vec![
        host_with("h1", "10.0.0.1", &[("ens6", "a"), ("ens7", "b")]),
        host_with("h2", "10.0.0.2", &[("ens6", "a"), ("ens7", "c")]),
        host_with("h3", "10.0.0.3", &[("ens6", "b"), ("ens7", "c")]),
    ];
    assert!(derive_explicit(config(valid)).is_ok());
    for victim in 0..3 {
        let mut hosts = vec![
            host_with("h1", "10.0.0.1", &[("ens6", "a"), ("ens7", "b")]),
            host_with("h2", "10.0.0.2", &[("ens6", "a"), ("ens7", "c")]),
            host_with("h3", "10.0.0.3", &[("ens6", "b"), ("ens7", "c")]),
        ];
        hosts[victim].devices.push(device("ens9", "forced"));
        let name = hosts[victim].hostname.clone();
        assert_eq!(
            derive_explicit(config(hosts)),
            Err(TopologyError::UnderConnected { link: "forced".to_string(), host: name })
        );
    }
    let mut hosts = vec![
        host_with("h1", "10.0.0.1", &[("ens6", "a"), ("ens7", "b")]),
        host_with("h2", "10.0.0.2", &[("ens6", "a"), ("ens7", "c")]),
        host_with("h3", "10.0.0.3", &[("ens6", "b"), ("ens7", "c")]),
    ];
    for h in hosts.iter_mut() {
        h.devices.push(device("ens9", "forced"));
    }
    assert_eq!(
        derive_explicit(config(hosts)),
        Err(TopologyError::OverConnected {
            link: "forced".to_string(),
            hosts: vec!["h1".to_string(), "h2".to_string(), "h3".to_string()],
        })
    );
}
