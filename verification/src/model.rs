//! The host registry and the link graph, with the mathematical view of each type.

use vstd::prelude::*;
use vstd::string::*;

verus! {

/// One network device of a host and the link it is attached to.
#[derive(Debug, PartialEq, Eq)]
pub struct Device {
    pub name: String,
    pub link: String,
}

/// A `Device` as plain values.
pub struct DeviceView {
    pub name: Seq<char>,
    pub link: Seq<char>,
}

/// Whether no two of the devices share a name.
pub open spec fn distinct_names(devices: Seq<DeviceView>) -> bool {
    forall|a: int, b: int|
        0 <= a < b < devices.len() ==> (#[trigger] devices[a]).name != (#[trigger] devices[b]).name
}

impl View for Device {
    type V = DeviceView;

    open spec fn view(&self) -> DeviceView {
        DeviceView { name: self.name@, link: self.link@ }
    }
}

impl DeepView for Device {
    type V = DeviceView;

    open spec fn deep_view(&self) -> DeviceView {
        self@
    }
}

impl Clone for Device {
    fn clone(&self) -> (r: Self)
        ensures
            r == *self,
    {
        Device { name: self.name.clone(), link: self.link.clone() }
    }
}

/// A machine of the testbed.
///
/// `ip` is the textual form of the public address by which the machine is recognised.
/// `free_ports` is the number of spare ports that the host asks for, `used_ports` the number
/// that its derived links take. `devices` lists the host's attachments in the order in which
/// they were declared or derived; hostnames are expected to differ from host to host.
#[derive(Debug, PartialEq, Eq)]
pub struct Host {
    pub hostname: String,
    pub ip: String,
    pub location: String,
    pub flavor: String,
    pub image: String,
    pub free_ports: usize,
    pub used_ports: usize,
    pub devices: Vec<Device>,
}

/// A `Host` as plain values.
pub struct HostView {
    pub hostname: Seq<char>,
    pub ip: Seq<char>,
    pub location: Seq<char>,
    pub flavor: Seq<char>,
    pub image: Seq<char>,
    pub free_ports: nat,
    pub used_ports: nat,
    pub devices: Seq<DeviceView>,
}

impl HostView {
    /// Whether the devices of the host are a mapping from device names to links: no device
    /// name occurs twice.
    pub open spec fn well_formed(self) -> bool {
        distinct_names(self.devices)
    }
}

impl View for Host {
    type V = HostView;

    open spec fn view(&self) -> HostView {
        HostView {
            hostname: self.hostname@,
            ip: self.ip@,
            location: self.location@,
            flavor: self.flavor@,
            image: self.image@,
            free_ports: self.free_ports as nat,
            used_ports: self.used_ports as nat,
            devices: self.devices.deep_view(),
        }
    }
}

impl DeepView for Host {
    type V = HostView;

    open spec fn deep_view(&self) -> HostView {
        self@
    }
}

/// Copies a list of devices.
pub fn clone_devices(devices: &Vec<Device>) -> (r: Vec<Device>)
    ensures
        r@ == devices@,
{
    let mut out: Vec<Device> = Vec::new();
    let mut i: usize = 0;
    while i < devices.len()
        invariant
            i <= devices.len(),
            out@ == devices@.take(i as int),
        decreases devices.len() - i,
    {
        out.push(devices[i].clone());
        i += 1;
        assert(out@ =~= devices@.take(i as int));
    }
    assert(devices@.take(devices.len() as int) =~= devices@);
    out
}

impl Clone for Host {
    fn clone(&self) -> (r: Self)
        ensures
            r@ == self@,
            r.devices@ == self.devices@,
    {
        Host {
            hostname: self.hostname.clone(),
            ip: self.ip.clone(),
            location: self.location.clone(),
            flavor: self.flavor.clone(),
            image: self.image.clone(),
            free_ports: self.free_ports,
            used_ports: self.used_ports,
            devices: clone_devices(&self.devices),
        }
    }
}

/// The number of spare ports of a host that declares neither devices nor a number of ports.
pub fn default_ports() -> (r: usize)
    ensures
        r == 0,
{
    0
}

/// The number of spare ports of a host that declares its devices but no number of ports.
pub fn default_declared_ports() -> (r: usize)
    ensures
        r == 28,
{
    28
}

/// The image of a host that names none.
pub fn default_image() -> (r: String)
    ensures
        r@ == "Ubuntu-18.04.qcow2"@,
{
    "Ubuntu-18.04.qcow2".to_owned()
}

/// The flavor of a host that names none.
pub fn default_flavor() -> (r: String)
    ensures
        r@ == "c2r2h20"@,
{
    "c2r2h20".to_owned()
}

impl Host {
    /// A host with the default flavor, image and port budget, and no device.
    pub fn new(hostname: String, ip: String, location: String) -> (r: Host)
        ensures
            r@ == (HostView {
                hostname: hostname@,
                ip: ip@,
                location: location@,
                flavor: "c2r2h20"@,
                image: "Ubuntu-18.04.qcow2"@,
                free_ports: 0,
                used_ports: 0,
                devices: Seq::empty(),
            }),
            r@.well_formed(),
    {
        let r = Host {
            hostname,
            ip,
            location,
            flavor: default_flavor(),
            image: default_image(),
            free_ports: default_ports(),
            used_ports: 0,
            devices: Vec::new(),
        };
        assert(r.devices.deep_view() =~= Seq::empty());
        r
    }
}

/// A named testbed: the host registry with its descriptor.
#[derive(Debug, PartialEq, Eq)]
pub struct Testbed {
    pub id: String,
    pub description: String,
    pub hosts: Vec<Host>,
}

/// A `Testbed` as plain values.
pub struct TestbedView {
    pub id: Seq<char>,
    pub description: Seq<char>,
    pub hosts: Seq<HostView>,
}

impl View for Testbed {
    type V = TestbedView;

    open spec fn view(&self) -> TestbedView {
        TestbedView {
            id: self.id@,
            description: self.description@,
            hosts: self.hosts.deep_view(),
        }
    }
}

/// The input document.
#[derive(Debug, PartialEq, Eq)]
pub struct Config {
    pub testbed: Testbed,
}

impl View for Config {
    type V = TestbedView;

    open spec fn view(&self) -> TestbedView {
        self.testbed@
    }
}

/// One attachment of a host to a link.
#[derive(Debug, PartialEq, Eq)]
pub struct Adjacency {
    pub host1_id: String,
    pub host1_port: usize,
    pub link_name: String,
    pub link_side: String,
}

/// An `Adjacency` as plain values.
pub struct AdjacencyView {
    pub host1_id: Seq<char>,
    pub host1_port: nat,
    pub link_name: Seq<char>,
    pub link_side: Seq<char>,
}

impl View for Adjacency {
    type V = AdjacencyView;

    open spec fn view(&self) -> AdjacencyView {
        AdjacencyView {
            host1_id: self.host1_id@,
            host1_port: self.host1_port as nat,
            link_name: self.link_name@,
            link_side: self.link_side@,
        }
    }
}

impl DeepView for Adjacency {
    type V = AdjacencyView;

    open spec fn deep_view(&self) -> AdjacencyView {
        self@
    }
}

/// A point-to-point link, known by its name alone.
#[derive(Debug, PartialEq, Eq)]
pub struct Link {
    pub id: String,
}

impl View for Link {
    type V = Seq<char>;

    open spec fn view(&self) -> Seq<char> {
        self.id@
    }
}

impl DeepView for Link {
    type V = Seq<char>;

    open spec fn deep_view(&self) -> Seq<char> {
        self@
    }
}

/// The derived topology: the registry, the links and every attachment, in derivation order.
#[derive(Debug, PartialEq, Eq)]
pub struct DSLConfig {
    pub description: String,
    pub id: String,
    pub hosts: Vec<Host>,
    pub link: Vec<Link>,
    pub adjacents: Vec<Adjacency>,
}

/// A `DSLConfig` as plain values.
pub struct DSLConfigView {
    pub description: Seq<char>,
    pub id: Seq<char>,
    pub hosts: Seq<HostView>,
    pub link: Seq<Seq<char>>,
    pub adjacents: Seq<AdjacencyView>,
}

impl View for DSLConfig {
    type V = DSLConfigView;

    open spec fn view(&self) -> DSLConfigView {
        DSLConfigView {
            description: self.description@,
            id: self.id@,
            hosts: self.hosts.deep_view(),
            link: self.link.deep_view(),
            adjacents: self.adjacents.deep_view(),
        }
    }
}

/// The hostnames of a registry, in registry order.
pub open spec fn hostnames(hosts: Seq<HostView>) -> Seq<Seq<char>> {
    Seq::new(hosts.len(), |i: int| hosts[i].hostname)
}

} // verus!
