//! The choice between the two derivations, and what holds of every derived graph.

use crate::error::{TopologyError, TopologyErrorView};
use crate::graph::{attachments_between, consistent};
use crate::matching::{
    attached_hosts, declares, derive_explicit, lemma_attached_hosts, lemma_matched_graph_valid,
    lemma_matched_host_attachments, matched_graph,
};
use crate::mesh::{
    lemma_mesh_consistent, lemma_mesh_device_origin, lemma_mesh_host_attachments,
    lemma_mesh_pair_bounds, lemma_mesh_paired, mesh_graph, mesh_pairs, owned,
};
use crate::model::{
    hostnames, AdjacencyView, Config, DSLConfig, DSLConfigView, HostView, TestbedView,
};
use crate::script::{lemma_script_valid, lemma_single_peer, peers, script};
use vstd::prelude::*;

verus! {

/// Whether some host of the registry declares a device.
pub open spec fn declares_devices(hosts: Seq<HostView>) -> bool {
    exists|i: int| 0 <= i < hosts.len() && (#[trigger] hosts[i]).devices.len() > 0
}

/// The link graph of a testbed: matched by link names where a host declares devices, the
/// full mesh where none does.
pub open spec fn derived(testbed: TestbedView) -> Result<DSLConfigView, TopologyErrorView> {
    if declares_devices(testbed.hosts) {
        matched_graph(testbed)
    } else {
        Ok(mesh_graph(testbed))
    }
}

/// Derives the link graph of a testbed. Where no host declares a device, every pair of
/// hosts is joined; otherwise the hosts are joined by the links that they name, and a link
/// that does not join exactly two hosts is reported.
pub fn derive_graph(config: Config) -> (r: Result<DSLConfig, TopologyError>)
    ensures
        match r {
            Ok(graph) => derived(config@) == Ok::<DSLConfigView, TopologyErrorView>(graph@)
                && consistent(graph@),
            Err(fault) => derived(config@) == Err::<DSLConfigView, TopologyErrorView>(fault@),
        },
        r matches Ok(graph) ==> graph@.hosts.len() == config@.hosts.len() && forall|i: int|
            0 <= i < graph@.hosts.len() && config@.hosts[i].well_formed() ==> (
            #[trigger] graph@.hosts[i]).well_formed(),
{
    let mut i: usize = 0;
    while i < config.testbed.hosts.len()
        invariant
            i <= config.testbed.hosts.len(),
            forall|k: int| 0 <= k < i ==> (#[trigger] config@.hosts[k]).devices.len() == 0,
        decreases config.testbed.hosts.len() - i,
    {
        if config.testbed.hosts[i].devices.len() > 0 {
            assert(config@.hosts[i as int].devices.len() > 0);
            return derive_explicit(config);
        }
        i += 1;
    }
    Ok(config.into())
}

/// Every derived graph keeps the rule of the link graph: a link that a device names has
/// exactly two attachments.
pub proof fn lemma_derived_consistent(testbed: TestbedView)
    ensures
        derived(testbed) matches Ok(graph) ==> consistent(graph),
{
    lemma_mesh_consistent(testbed);
    lemma_matched_graph_valid(testbed);
}

/// In a graph derived for hosts of different names, every host has exactly one attachment
/// to each link that one of its devices names.
pub proof fn lemma_derived_host_attachments(testbed: TestbedView, i: int, d: int)
    requires
        hostnames(testbed.hosts).no_duplicates(),
        derived(testbed) is Ok,
        0 <= i < testbed.hosts.len(),
        0 <= d < derived(testbed)->Ok_0.hosts[i].devices.len(),
    ensures
        attachments_between(
            derived(testbed)->Ok_0.adjacents,
            derived(testbed)->Ok_0.hosts[i].hostname,
            derived(testbed)->Ok_0.hosts[i].devices[d].link,
        ).len() == 1,
{
    if declares_devices(testbed.hosts) {
        lemma_matched_host_attachments(testbed, i, d);
    } else {
        lemma_mesh_host_attachments(testbed, i, d);
    }
}

/// The script of a mesh between hosts of different names is rendered.
proof fn lemma_mesh_script(testbed: TestbedView)
    requires
        hostnames(testbed.hosts).no_duplicates(),
    ensures
        script(mesh_graph(testbed).hosts) is Ok,
{
    let graph = mesh_graph(testbed);
    let hosts = graph.hosts;
    let names = hostnames(testbed.hosts);
    let all = graph.adjacents;
    lemma_mesh_paired(names);
    assert forall|i: int, d: int|
        0 <= i < hosts.len() && 0 <= d < hosts[i].devices.len() implies peers(
        hosts,
        hosts[i].hostname,
        (#[trigger] hosts[i].devices[d]).link,
    ).len() == 1 by {
        let link = hosts[i].devices[d].link;
        let n = lemma_mesh_device_origin(testbed, i, d);
        let k = n / 2;
        lemma_mesh_pair_bounds(names.len(), names.len(), k);
        let (a, b) = mesh_pairs(names.len())[k];
        assert(all[2 * k].host1_id == names[a as int]);
        assert(all[2 * k + 1].host1_id == names[b as int]);
        assert(names[i] == hosts[i].hostname);
        let other: int = if i == a {
            b as int
        } else {
            a as int
        };
        let m = if i == a {
            2 * k + 1
        } else {
            2 * k
        };
        assert(all[m].host1_id == names[other] && all[m].link_name == link);
        let is_other = |x: AdjacencyView| x.host1_id == testbed.hosts[other].hostname;
        all.lemma_filter_contains(is_other, m);
        let own = owned(all, testbed.hosts[other].hostname);
        let e = choose|e: int| 0 <= e < own.len() && own[e] == all[m];
        assert(hosts[other].devices[e].link == link);
        assert(declares(hosts[other], link));
        assert forall|p: int|
            0 <= p < hosts.len() && declares(#[trigger] hosts[p], link) && hosts[p].hostname
                != hosts[i].hostname implies p == other by {
            let f = choose|f: int|
                0 <= f < hosts[p].devices.len() && (#[trigger] hosts[p].devices[f]).link == link;
            let q = lemma_mesh_device_origin(testbed, p, f);
            assert(graph.link[q / 2] == graph.link[k]);
            assert(q / 2 == k);
            assert(names[p] == hosts[p].hostname);
        }
        lemma_single_peer(hosts, hosts[i].hostname, link, other);
    }
    lemma_script_valid(hosts);
}

/// The script of hosts of different names whose declared links each join two hosts is
/// rendered.
proof fn lemma_matched_script(testbed: TestbedView)
    requires
        hostnames(testbed.hosts).no_duplicates(),
        matched_graph(testbed) is Ok,
    ensures
        script(testbed.hosts) is Ok,
{
    let hosts = testbed.hosts;
    let names = hostnames(hosts);
    lemma_matched_graph_valid(testbed);
    assert forall|i: int, d: int|
        0 <= i < hosts.len() && 0 <= d < hosts[i].devices.len() implies peers(
        hosts,
        hosts[i].hostname,
        (#[trigger] hosts[i].devices[d]).link,
    ).len() == 1 by {
        let link = hosts[i].devices[d].link;
        let found = attached_hosts(hosts, link);
        lemma_attached_hosts(hosts, link);
        assert(found.len() == 2);
        assert(declares(hosts[i], link));
        assert(found.contains(i));
        let other = if found[0] == i {
            found[1]
        } else {
            found[0]
        };
        assert(names[i] == hosts[i].hostname && names[other] == hosts[other].hostname);
        assert forall|p: int|
            0 <= p < hosts.len() && declares(#[trigger] hosts[p], link) && hosts[p].hostname
                != hosts[i].hostname implies p == other by {
            assert(found.contains(p));
        }
        lemma_single_peer(hosts, hosts[i].hostname, link, other);
    }
    lemma_script_valid(hosts);
}

/// The script of a graph derived for hosts of different names is always rendered: the links
/// that the derivation accepts are the links that the script accepts.
pub proof fn lemma_derived_script(testbed: TestbedView)
    requires
        hostnames(testbed.hosts).no_duplicates(),
    ensures
        derived(testbed) matches Ok(graph) ==> script(graph.hosts) is Ok,
{
    if declares_devices(testbed.hosts) {
        if matched_graph(testbed) is Ok {
            lemma_matched_script(testbed);
        }
    } else {
        lemma_mesh_script(testbed);
    }
}

} // verus!
