//! The shell script that gives every host its name, addresses and routes.

use crate::error::{TopologyError, TopologyErrorView};
use crate::matching::{declares, declares_link, hostnames_at, names_at, positions_of};
use crate::model::{distinct_names, DSLConfig, DeviceView, Host, HostView};
use crate::sorting::{
    lemma_sort_by_name, lemma_sort_by_name_unique, sort_by_name, sorted_devices,
};
use crate::text::{decimal, numbered};
use vstd::prelude::*;
use vstd::string::*;

verus! {

/// The private address of the host at `position` of the registry, counted from 0: the
/// addresses are given out in registry order, from `10.42.42.1`.
pub open spec fn internal_ip(position: nat) -> Seq<char> {
    "10.42.42."@ + decimal(position + 1)
}

/// The positions of the hosts that declare `link` and are not called `owner`, in registry
/// order.
pub open spec fn peers(hosts: Seq<HostView>, owner: Seq<char>, link: Seq<char>) -> Seq<int>
    decreases hosts.len(),
{
    if hosts.len() == 0 {
        Seq::empty()
    } else if declares(hosts.last(), link) && hosts.last().hostname != owner {
        peers(hosts.drop_last(), owner, link).push(hosts.len() - 1)
    } else {
        peers(hosts.drop_last(), owner, link)
    }
}

/// The position of the one host at the other end of `link`, seen from the host called
/// `owner`, or what is wrong with the link.
pub open spec fn peer(hosts: Seq<HostView>, owner: Seq<char>, link: Seq<char>) -> Result<
    int,
    TopologyErrorView,
> {
    let found = peers(hosts, owner, link);
    if found.len() == 1 {
        Ok(found[0])
    } else if found.len() == 0 {
        Err(TopologyErrorView::UnderConnected { link, host: owner })
    } else {
        Err(TopologyErrorView::OverConnected { link, hosts: names_at(hosts, found) })
    }
}

/// The commands that set up one device: take it down, drop its addresses, give it the
/// host's private address, bring it up, and route the peer's private address through it.
pub open spec fn stanza(device: Seq<char>, own: Seq<char>, other: Seq<char>) -> Seq<char> {
    "\n    sudo ip link set dev "@ + device + " down\n    sudo ip addr flush dev "@ + device
        + "\n    sudo ip addr add "@ + own + " dev "@ + device + "\n    sudo ip link set dev "@
        + device + " up\n    sudo ip route add "@ + other + " dev "@ + device + "\n"@
}

/// The commands for `devices` of the host at `position`, or the fault of the first device
/// whose link has not exactly one peer.
pub open spec fn stanzas(hosts: Seq<HostView>, position: int, devices: Seq<DeviceView>) -> Result<
    Seq<char>,
    TopologyErrorView,
>
    decreases devices.len(),
{
    if devices.len() == 0 {
        Ok(Seq::empty())
    } else {
        match stanzas(hosts, position, devices.drop_last()) {
            Err(fault) => Err(fault),
            Ok(text) => match peer(hosts, hosts[position].hostname, devices.last().link) {
                Err(fault) => Err(fault),
                Ok(other) => Ok(
                    text + stanza(
                        devices.last().name,
                        internal_ip(position as nat),
                        internal_ip(other as nat),
                    ),
                ),
            },
        }
    }
}

/// The branch of the host at `position`: its public address as the pattern, its hostname, and
/// the commands for its devices in the order of their names.
pub open spec fn branch(hosts: Seq<HostView>, position: int) -> Result<
    Seq<char>,
    TopologyErrorView,
> {
    match stanzas(hosts, position, sort_by_name(hosts[position].devices)) {
        Err(fault) => Err(fault),
        Ok(body) => Ok(
            "  "@ + hosts[position].ip + ")\n    sudo hostnamectl set-hostname "@
                + hosts[position].hostname + "\n"@ + body + "    ;;\n"@,
        ),
    }
}

/// The branches of the first `count` hosts, or the first fault among them.
pub open spec fn branches(hosts: Seq<HostView>, count: nat) -> Result<
    Seq<char>,
    TopologyErrorView,
>
    decreases count,
{
    if count == 0 {
        Ok(Seq::empty())
    } else {
        match branches(hosts, (count - 1) as nat) {
            Err(fault) => Err(fault),
            Ok(text) => match branch(hosts, count - 1) {
                Err(fault) => Err(fault),
                Ok(next) => Ok(text + next),
            },
        }
    }
}

/// The first lines of the script: they find the address by which the machine is recognised.
pub open spec fn script_head() -> Seq<char> {
    "#! /bin/sh\nIP_ADDRESS=$(ip -f inet addr show ens3 | sed -En -e 's/.*inet ([0-9.]+).*/\\1/p')\n\ncase $IP_ADDRESS in\n"@
}

/// The script for a registry: one branch for each host, or the first fault.
pub open spec fn script(hosts: Seq<HostView>) -> Result<Seq<char>, TopologyErrorView> {
    match branches(hosts, hosts.len()) {
        Err(fault) => Err(fault),
        Ok(text) => Ok(script_head() + text + "esac\n"@),
    }
}

/// The private address of the host at `position` of the registry, counted from 0.
pub fn internal_address(position: usize) -> (r: String)
    ensures
        r@ == internal_ip(position as nat),
{
    numbered("10.42.42.", position as u128 + 1)
}

/// The positions of the hosts that declare `link` and are not called `owner`.
pub fn peers_of(hosts: &Vec<Host>, owner: &String, link: &String) -> (r: Vec<usize>)
    ensures
        positions_of(r@) == peers(hosts.deep_view(), owner@, link@),
        forall|k: int| 0 <= k < r.len() ==> r[k] < hosts.len(),
{
    let ghost all = hosts.deep_view();
    let mut found: Vec<usize> = Vec::new();
    let mut i: usize = 0;
    assert(positions_of(found@) =~= peers(all.take(0), owner@, link@));
    while i < hosts.len()
        invariant
            i <= hosts.len(),
            all == hosts.deep_view(),
            positions_of(found@) == peers(all.take(i as int), owner@, link@),
            forall|k: int| 0 <= k < found.len() ==> found[k] < hosts.len(),
        decreases hosts.len() - i,
    {
        let ghost before = positions_of(found@);
        assert(all.take(i + 1).drop_last() =~= all.take(i as int));
        if declares_link(&hosts[i], link) && hosts[i].hostname != *owner {
            found.push(i);
            assert(positions_of(found@) =~= before.push(i as int));
        }
        i += 1;
    }
    assert(all.take(hosts.len() as int) =~= all);
    found
}

/// Finds the host at the other end of `link`, seen from the host called `owner`. A link
/// that no other host declares, or more than one, is refused.
pub fn resolve_peer(hosts: &Vec<Host>, owner: &String, link: &String) -> (r: Result<
    usize,
    TopologyError,
>)
    ensures
        match r {
            Ok(other) => other < hosts.len() && peer(hosts.deep_view(), owner@, link@) == Ok::<
                int,
                TopologyErrorView,
            >(other as int),
            Err(fault) => peer(hosts.deep_view(), owner@, link@) == Err::<
                int,
                TopologyErrorView,
            >(fault@),
        },
{
    let found = peers_of(hosts, owner, link);
    let ghost positions = positions_of(found@);
    if found.len() == 1 {
        assert(positions[0] == found[0]);
        Ok(found[0])
    } else if found.len() == 0 {
        Err(TopologyError::UnderConnected { link: link.clone(), host: owner.clone() })
    } else {
        Err(TopologyError::OverConnected { link: link.clone(), hosts: hostnames_at(hosts, &found) })
    }
}

/// The commands that set up one device.
fn stanza_text(device: &String, own: &String, other: &String) -> (r: String)
    ensures
        r@ == stanza(device@, own@, other@),
{
    let mut out = "\n    sudo ip link set dev ".to_owned();
    out.append(device.as_str());
    out.append(" down\n    sudo ip addr flush dev ");
    out.append(device.as_str());
    out.append("\n    sudo ip addr add ");
    out.append(own.as_str());
    out.append(" dev ");
    out.append(device.as_str());
    out.append("\n    sudo ip link set dev ");
    out.append(device.as_str());
    out.append(" up\n    sudo ip route add ");
    out.append(other.as_str());
    out.append(" dev ");
    out.append(device.as_str());
    out.append("\n");
    out
}

/// A fault found among the first devices is the fault of the whole list.
proof fn lemma_stanzas_fault(hosts: Seq<HostView>, position: int, devices: Seq<DeviceView>, d: int)
    requires
        0 <= d <= devices.len(),
        stanzas(hosts, position, devices.take(d)) is Err,
    ensures
        stanzas(hosts, position, devices) == stanzas(hosts, position, devices.take(d)),
    decreases devices.len() - d,
{
    if d < devices.len() {
        assert(devices.take(d + 1).drop_last() =~= devices.take(d));
        lemma_stanzas_fault(hosts, position, devices, d + 1);
    } else {
        assert(devices.take(d) =~= devices);
    }
}

/// A fault found among the first hosts is the fault of the whole registry.
proof fn lemma_branches_fault(hosts: Seq<HostView>, count: nat, total: nat)
    requires
        count <= total,
        branches(hosts, count) is Err,
    ensures
        branches(hosts, total) == branches(hosts, count),
    decreases total - count,
{
    if count < total {
        lemma_branches_fault(hosts, count + 1, total);
    }
}

/// The branch of the host at `position`.
pub fn branch_text(hosts: &Vec<Host>, position: usize) -> (r: Result<String, TopologyError>)
    requires
        position < hosts.len(),
    ensures
        match r {
            Ok(text) => branch(hosts.deep_view(), position as int) == Ok::<
                Seq<char>,
                TopologyErrorView,
            >(text@),
            Err(fault) => branch(hosts.deep_view(), position as int) == Err::<
                Seq<char>,
                TopologyErrorView,
            >(fault@),
        },
{
    let ghost all = hosts.deep_view();
    let host = &hosts[position];
    let own = internal_address(position);
    let devices = sorted_devices(&host.devices);
    let ghost sorted = devices.deep_view();
    let mut body = String::new();
    let mut d: usize = 0;
    assert(sorted.take(0) =~= Seq::<DeviceView>::empty());
    while d < devices.len()
        invariant
            d <= devices.len(),
            position < hosts.len(),
            all == hosts.deep_view(),
            host == hosts[position as int],
            own@ == internal_ip(position as nat),
            sorted == devices.deep_view(),
            sorted == sort_by_name(all[position as int].devices),
            stanzas(all, position as int, sorted.take(d as int)) == Ok::<
                Seq<char>,
                TopologyErrorView,
            >(body@),
        decreases devices.len() - d,
    {
        proof {
            assert(sorted.take(d + 1).drop_last() =~= sorted.take(d as int));
            assert(sorted.take(d + 1).last() == devices[d as int]@);
        }
        match resolve_peer(hosts, &host.hostname, &devices[d].link) {
            Err(fault) => {
                proof {
                    assert(stanzas(all, position as int, sorted.take(d + 1)) == Err::<
                        Seq<char>,
                        TopologyErrorView,
                    >(fault@));
                    lemma_stanzas_fault(all, position as int, sorted, d + 1);
                }
                return Err(fault);
            },
            Ok(other) => {
                let there = internal_address(other);
                body.append(stanza_text(&devices[d].name, &own, &there).as_str());
            },
        }
        d += 1;
    }
    assert(sorted.take(devices.len() as int) =~= sorted);
    let mut out = "  ".to_owned();
    out.append(host.ip.as_str());
    out.append(")\n    sudo hostnamectl set-hostname ");
    out.append(host.hostname.as_str());
    out.append("\n");
    out.append(body.as_str());
    out.append("    ;;\n");
    Ok(out)
}

/// Renders the script that configures every host of the topology: a `case` over the address
/// by which a machine is recognised, with one branch for each host in registry order. Every
/// link of every host must lead to exactly one other host; the first that does not is
/// reported, and no script is rendered.
pub fn script_generation_ports(config: DSLConfig) -> (r: Result<String, TopologyError>)
    ensures
        match r {
            Ok(text) => script(config@.hosts) == Ok::<Seq<char>, TopologyErrorView>(text@),
            Err(fault) => script(config@.hosts) == Err::<Seq<char>, TopologyErrorView>(fault@),
        },
        r is Ok <==> forall|i: int, d: int|
            0 <= i < config@.hosts.len() && 0 <= d < config@.hosts[i].devices.len() ==> peers(
                config@.hosts,
                config@.hosts[i].hostname,
                (#[trigger] config@.hosts[i].devices[d]).link,
            ).len() == 1,
{
    proof {
        lemma_script_valid(config@.hosts);
    }
    let ghost all = config.hosts.deep_view();
    let mut text = String::new();
    let mut i: usize = 0;
    while i < config.hosts.len()
        invariant
            i <= config.hosts.len(),
            all == config.hosts.deep_view(),
            branches(all, i as nat) == Ok::<Seq<char>, TopologyErrorView>(text@),
        decreases config.hosts.len() - i,
    {
        match branch_text(&config.hosts, i) {
            Err(fault) => {
                proof {
                    assert(branches(all, (i + 1) as nat) == Err::<Seq<char>, TopologyErrorView>(
                        fault@,
                    ));
                    lemma_branches_fault(all, (i + 1) as nat, all.len());
                    lemma_script_valid(all);
                }
                return Err(fault);
            },
            Ok(next) => {
                text.append(next.as_str());
            },
        }
        i += 1;
    }
    let mut out =
        "#! /bin/sh\nIP_ADDRESS=$(ip -f inet addr show ens3 | sed -En -e 's/.*inet ([0-9.]+).*/\\1/p')\n\ncase $IP_ADDRESS in\n".to_owned();
    out.append(text.as_str());
    out.append("esac\n");
    Ok(out)
}

/// Whether two registries hold the same hosts with the same devices, whatever the order in
/// which each host lists its devices.
pub open spec fn same_devices(a: Seq<HostView>, b: Seq<HostView>) -> bool {
    &&& a.len() == b.len()
    &&& forall|i: int|
        0 <= i < a.len() ==> {
            &&& (#[trigger] a[i]).hostname == b[i].hostname
            &&& a[i].ip == b[i].ip
            &&& a[i].devices.to_multiset() == b[i].devices.to_multiset()
        }
}

/// Hosts with the same devices declare the same links.
proof fn lemma_same_declares(a: HostView, b: HostView, link: Seq<char>)
    requires
        a.devices.to_multiset() == b.devices.to_multiset(),
        declares(a, link),
    ensures
        declares(b, link),
{
    broadcast use vstd::seq_lib::group_to_multiset_ensures;

    let d = choose|d: int| 0 <= d < a.devices.len() && (#[trigger] a.devices[d]).link == link;
    assert(a.devices.contains(a.devices[d]));
    assert(b.devices.to_multiset().count(a.devices[d]) > 0);
    assert(b.devices.contains(a.devices[d]));
    let e = choose|e: int| 0 <= e < b.devices.len() && b.devices[e] == a.devices[d];
    assert(b.devices[e].link == link);
}

/// Registries with the same devices give every link the same peers.
proof fn lemma_same_peers(a: Seq<HostView>, b: Seq<HostView>, owner: Seq<char>, link: Seq<char>)
    requires
        same_devices(a, b),
    ensures
        peers(a, owner, link) == peers(b, owner, link),
        peer(a, owner, link) == peer(b, owner, link),
        forall|k: int|
            0 <= k < peers(a, owner, link).len() ==> 0 <= #[trigger] peers(a, owner, link)[k]
                < a.len(),
    decreases a.len(),
{
    if a.len() > 0 {
        let last = a.len() - 1;
        assert(a[last].hostname == b[last].hostname);
        assert(same_devices(a.drop_last(), b.drop_last())) by {
            assert forall|i: int| 0 <= i < a.drop_last().len() implies {
                &&& (#[trigger] a.drop_last()[i]).hostname == b.drop_last()[i].hostname
                &&& a.drop_last()[i].ip == b.drop_last()[i].ip
                &&& a.drop_last()[i].devices.to_multiset() == b.drop_last()[i].devices.to_multiset()
            } by {
                assert(a.drop_last()[i] == a[i]);
            }
        }
        lemma_same_peers(a.drop_last(), b.drop_last(), owner, link);
        if declares(a.last(), link) {
            lemma_same_declares(a.last(), b.last(), link);
        }
        if declares(b.last(), link) {
            lemma_same_declares(b.last(), a.last(), link);
        }
    }
    let found = peers(a, owner, link);
    assert(names_at(a, found) =~= names_at(b, found)) by {
        assert forall|k: int| 0 <= k < found.len() implies a[found[k]].hostname
            == b[found[k]].hostname by {
            assert(0 <= found[k] < a.len());
        }
    }
}

/// Registries with the same devices give a list of devices the same commands.
proof fn lemma_same_stanzas(
    a: Seq<HostView>,
    b: Seq<HostView>,
    position: int,
    devices: Seq<DeviceView>,
)
    requires
        same_devices(a, b),
        0 <= position < a.len(),
    ensures
        stanzas(a, position, devices) == stanzas(b, position, devices),
    decreases devices.len(),
{
    if devices.len() > 0 {
        lemma_same_stanzas(a, b, position, devices.drop_last());
        lemma_same_peers(a, b, a[position].hostname, devices.last().link);
    }
}

/// Registries with the same devices, none of them named twice on a host, give the same
/// branches.
proof fn lemma_same_branches(a: Seq<HostView>, b: Seq<HostView>, count: nat)
    requires
        same_devices(a, b),
        forall|i: int| 0 <= i < a.len() ==> distinct_names(#[trigger] a[i].devices),
        count <= a.len(),
    ensures
        branches(a, count) == branches(b, count),
    decreases count,
{
    if count > 0 {
        let i = count - 1;
        lemma_same_branches(a, b, (count - 1) as nat);
        assert(a[i].hostname == b[i].hostname);
        assert(distinct_names(a[i].devices));
        lemma_sort_by_name_unique(a[i].devices, b[i].devices);
        lemma_same_stanzas(a, b, i, sort_by_name(a[i].devices));
    }
}

/// The script does not depend on the order in which a host lists its devices, where no host
/// has two devices of one name.
pub proof fn lemma_script_order_free(a: Seq<HostView>, b: Seq<HostView>)
    requires
        same_devices(a, b),
        forall|i: int| 0 <= i < a.len() ==> distinct_names(#[trigger] a[i].devices),
    ensures
        script(a) == script(b),
{
    lemma_same_branches(a, b, a.len());
}

/// The peers on a link are the hosts of another name that declare it, each once, in
/// registry order.
pub proof fn lemma_peers(hosts: Seq<HostView>, owner: Seq<char>, link: Seq<char>)
    ensures
        forall|k: int|
            0 <= k < peers(hosts, owner, link).len() ==> {
                let p = #[trigger] peers(hosts, owner, link)[k];
                0 <= p < hosts.len() && declares(hosts[p], link) && hosts[p].hostname != owner
            },
        forall|a: int, b: int|
            0 <= a < b < peers(hosts, owner, link).len() ==> peers(hosts, owner, link)[a] < peers(
                hosts,
                owner,
                link,
            )[b],
        forall|p: int|
            0 <= p < hosts.len() && declares(#[trigger] hosts[p], link) && hosts[p].hostname
                != owner ==> peers(hosts, owner, link).contains(p),
    decreases hosts.len(),
{
    if hosts.len() > 0 {
        let front = hosts.drop_last();
        let found = peers(hosts, owner, link);
        let before = peers(front, owner, link);
        lemma_peers(front, owner, link);
        assert forall|p: int|
            0 <= p < hosts.len() && declares(#[trigger] hosts[p], link) && hosts[p].hostname
                != owner implies found.contains(p) by {
            if p < front.len() {
                assert(front[p] == hosts[p]);
                assert(before.contains(p));
                let k = choose|k: int| 0 <= k < before.len() && before[k] == p;
                assert(found[k] == p);
            } else {
                assert(found[found.len() - 1] == p);
            }
        }
        assert forall|k: int| 0 <= k < found.len() implies {
            let p = #[trigger] found[k];
            0 <= p < hosts.len() && declares(hosts[p], link) && hosts[p].hostname != owner
        } by {
            if k < before.len() {
                assert(found[k] == before[k]);
                assert(front[before[k]] == hosts[before[k]]);
            }
        }
        assert forall|a: int, b: int| 0 <= a < b < found.len() implies found[a] < found[b] by {
            assert(found[a] == before[a]);
            if b < before.len() {
                assert(found[b] == before[b]);
            }
        }
    }
}

/// A link that exactly one host of another name declares has that host as its one peer.
pub proof fn lemma_single_peer(hosts: Seq<HostView>, owner: Seq<char>, link: Seq<char>, other: int)
    requires
        0 <= other < hosts.len(),
        declares(hosts[other], link),
        hosts[other].hostname != owner,
        forall|p: int|
            0 <= p < hosts.len() && declares(#[trigger] hosts[p], link) && hosts[p].hostname
                != owner ==> p == other,
    ensures
        peers(hosts, owner, link) == seq![other],
{
    lemma_peers(hosts, owner, link);
    let found = peers(hosts, owner, link);
    assert(found.contains(other));
    if found.len() > 1 {
        assert(found[0] == other && found[1] == other);
    }
    assert(found =~= seq![other]);
}

/// The commands for a list of devices are rendered exactly when each of their links has one
/// peer.
proof fn lemma_stanzas_valid(hosts: Seq<HostView>, position: int, devices: Seq<DeviceView>)
    ensures
        stanzas(hosts, position, devices) is Ok <==> forall|d: int|
            0 <= d < devices.len() ==> peers(
                hosts,
                hosts[position].hostname,
                (#[trigger] devices[d]).link,
            ).len() == 1,
    decreases devices.len(),
{
    if devices.len() > 0 {
        let front = devices.drop_last();
        lemma_stanzas_valid(hosts, position, front);
        assert(forall|d: int| 0 <= d < front.len() ==> front[d] == devices[d]);
        if stanzas(hosts, position, devices) is Ok {
            assert forall|d: int| 0 <= d < devices.len() implies peers(
                hosts,
                hosts[position].hostname,
                (#[trigger] devices[d]).link,
            ).len() == 1 by {
                if d < front.len() {
                    assert(front[d] == devices[d]);
                }
            }
        } else if stanzas(hosts, position, front) is Ok {
            assert(peers(
                hosts,
                hosts[position].hostname,
                devices[devices.len() - 1].link,
            ).len() != 1);
        } else {
            let d = choose|d: int|
                0 <= d < front.len() && peers(
                    hosts,
                    hosts[position].hostname,
                    (#[trigger] front[d]).link,
                ).len() != 1;
            assert(front[d] == devices[d]);
        }
    }
}

/// The branch of a host is rendered exactly when each link of its devices has one peer.
proof fn lemma_branch_valid(hosts: Seq<HostView>, position: int)
    ensures
        branch(hosts, position) is Ok <==> forall|d: int|
            0 <= d < hosts[position].devices.len() ==> peers(
                hosts,
                hosts[position].hostname,
                (#[trigger] hosts[position].devices[d]).link,
            ).len() == 1,
{
    broadcast use vstd::seq_lib::group_to_multiset_ensures;

    let devices = hosts[position].devices;
    let sorted = sort_by_name(devices);
    let owner = hosts[position].hostname;
    lemma_sort_by_name(devices);
    lemma_stanzas_valid(hosts, position, sorted);
    if branch(hosts, position) is Ok {
        assert forall|d: int| 0 <= d < devices.len() implies peers(
            hosts,
            owner,
            (#[trigger] devices[d]).link,
        ).len() == 1 by {
            assert(devices.contains(devices[d]));
            assert(sorted.to_multiset().count(devices[d]) > 0);
            assert(sorted.contains(devices[d]));
            let e = choose|e: int| 0 <= e < sorted.len() && sorted[e] == devices[d];
            assert(peers(hosts, owner, sorted[e].link).len() == 1);
        }
    }
    if forall|d: int|
        0 <= d < devices.len() ==> peers(hosts, owner, (#[trigger] devices[d]).link).len() == 1 {
        assert forall|e: int| 0 <= e < sorted.len() implies peers(
            hosts,
            owner,
            (#[trigger] sorted[e]).link,
        ).len() == 1 by {
            assert(sorted.contains(sorted[e]));
            assert(devices.to_multiset().count(sorted[e]) > 0);
            assert(devices.contains(sorted[e]));
            let d = choose|d: int| 0 <= d < devices.len() && devices[d] == sorted[e];
            assert(peers(hosts, owner, devices[d].link).len() == 1);
        }
    }
}

/// The branches of the first `count` hosts are rendered exactly when each link of their
/// devices has one peer.
proof fn lemma_branches_valid(hosts: Seq<HostView>, count: nat)
    ensures
        branches(hosts, count) is Ok <==> forall|i: int, d: int|
            0 <= i < count && 0 <= d < hosts[i].devices.len() ==> peers(
                hosts,
                hosts[i].hostname,
                (#[trigger] hosts[i].devices[d]).link,
            ).len() == 1,
    decreases count,
{
    if count > 0 {
        lemma_branches_valid(hosts, (count - 1) as nat);
        lemma_branch_valid(hosts, count - 1);
    }
}

/// A script is rendered exactly when every link that a device names leads to one host of
/// another name.
pub proof fn lemma_script_valid(hosts: Seq<HostView>)
    ensures
        script(hosts) is Ok <==> forall|i: int, d: int|
            0 <= i < hosts.len() && 0 <= d < hosts[i].devices.len() ==> peers(
                hosts,
                hosts[i].hostname,
                (#[trigger] hosts[i].devices[d]).link,
            ).len() == 1,
{
    lemma_branches_valid(hosts, hosts.len());
}

} // verus!
