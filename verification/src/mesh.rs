//! Full-mesh derivation: one link for every pair of hosts.

use crate::graph::{attachments_between, attachments_of, consistent, lemma_paired_attachments, paired};
use crate::model::{
    Adjacency, AdjacencyView, Config, DSLConfig, DSLConfigView, Device, DeviceView, Host, HostView,
    Link, Testbed, TestbedView, distinct_names, hostnames,
};
use crate::text::{decimal, dedup_names, dedup_runs, lemma_numbered_injective, numbered};
use vstd::prelude::*;
use vstd::string::*;

verus! {

/// The pairs that host `i` opens: `(i, i + 1)`, ..., `(i, h - 1)`.
pub open spec fn mesh_row(h: nat, i: nat) -> Seq<(nat, nat)> {
    Seq::new((h - 1 - i) as nat, |d: int| (i, (i + 1 + d) as nat))
}

/// The pairs opened by the first `rows` hosts of `h`, row after row.
pub open spec fn mesh_rows(h: nat, rows: nat) -> Seq<(nat, nat)>
    decreases rows,
{
    if rows == 0 {
        Seq::empty()
    } else {
        mesh_rows(h, (rows - 1) as nat) + mesh_row(h, (rows - 1) as nat)
    }
}

/// Every pair `(i, j)` with `i < j < h`, ordered by `i` and then by `j`.
pub open spec fn mesh_pairs(h: nat) -> Seq<(nat, nat)> {
    mesh_rows(h, h)
}

/// The name of the `n`-th link of a mesh, counted from 1.
pub open spec fn link_name(n: nat) -> Seq<char> {
    "link"@ + decimal(n)
}

/// The name of the `n`-th device of a host, counted from 0.
pub open spec fn device_name(n: nat) -> Seq<char> {
    "ens"@ + decimal(n + 7)
}

/// The `n`-th attachment of a mesh over `pairs`: the pair `n / 2` gives its first host as
/// source and its second as destination, each with the number of links it then has.
pub open spec fn mesh_endpoint(names: Seq<Seq<char>>, pairs: Seq<(nat, nat)>, n: int)
    -> AdjacencyView {
    let k = n / 2;
    let (i, j) = pairs[k];
    if n % 2 == 0 {
        AdjacencyView {
            host1_id: names[i as int],
            host1_port: j,
            link_name: link_name((k + 1) as nat),
            link_side: "src"@,
        }
    } else {
        AdjacencyView {
            host1_id: names[j as int],
            host1_port: i + 1,
            link_name: link_name((k + 1) as nat),
            link_side: "dst"@,
        }
    }
}

/// The attachments of the full mesh between the hosts called `names`.
pub open spec fn mesh_adjacencies(names: Seq<Seq<char>>) -> Seq<AdjacencyView> {
    let pairs = mesh_pairs(names.len());
    Seq::new(2 * pairs.len(), |n: int| mesh_endpoint(names, pairs, n))
}

/// The links of a full mesh between `h` hosts.
pub open spec fn mesh_links(h: nat) -> Seq<Seq<char>> {
    Seq::new(mesh_pairs(h).len(), |k: int| link_name((k + 1) as nat))
}

/// The attachments of the host called `host`, in the order of `adjacencies`.
pub open spec fn owned(adjacencies: Seq<AdjacencyView>, host: Seq<char>) -> Seq<AdjacencyView> {
    adjacencies.filter(|a: AdjacencyView| a.host1_id == host)
}

/// The devices of a host with the attachments `own`: numbered by position, from `ens7`.
pub open spec fn mesh_devices(own: Seq<AdjacencyView>) -> Seq<DeviceView> {
    Seq::new(own.len(), |n: int| DeviceView { name: device_name(n as nat), link: own[n].link_name })
}

/// A host as it leaves the mesh derivation, among `count` hosts: one port is in use for
/// each other host, and its devices are those of its attachments.
pub open spec fn mesh_host(host: HostView, count: nat, adjacencies: Seq<AdjacencyView>)
    -> HostView {
    HostView {
        used_ports: (count - 1) as nat,
        devices: mesh_devices(owned(adjacencies, host.hostname)),
        ..host
    }
}

/// The full mesh over a testbed.
pub open spec fn mesh_graph(testbed: TestbedView) -> DSLConfigView {
    let adjacencies = mesh_adjacencies(hostnames(testbed.hosts));
    DSLConfigView {
        description: testbed.description,
        id: testbed.id,
        hosts: Seq::new(
            testbed.hosts.len(),
            |i: int| mesh_host(testbed.hosts[i], testbed.hosts.len(), adjacencies),
        ),
        link: mesh_links(testbed.hosts.len()),
        adjacents: adjacencies,
    }
}

/// Row `i` of a mesh starts where the rows before it end, and holds the pairs of host `i`.
pub proof fn lemma_mesh_rows_index(h: nat, rows: nat, i: nat, j: nat)
    requires
        i < j < h,
        i < rows <= h,
    ensures
        mesh_rows(h, i).len() + (j - i - 1) < mesh_rows(h, rows).len(),
        mesh_rows(h, rows)[mesh_rows(h, i).len() + (j - i - 1)] == (i, j),
        mesh_rows(h, i).len() + (h - 1 - i) == mesh_rows(h, i + 1).len(),
        mesh_rows(h, i + 1).len() <= mesh_rows(h, rows).len(),
    decreases rows,
{
    if rows == i + 1 {
        assert(mesh_row(h, i)[j - i - 1] == (i, j));
    } else {
        lemma_mesh_rows_index(h, (rows - 1) as nat, i, j);
    }
}

/// The attachments of every pair of `hosts`, in the order of the pairs.
pub fn mesh_attachments(hosts: &Vec<Host>) -> (r: Vec<Adjacency>)
    ensures
        r.deep_view() == mesh_adjacencies(hostnames(hosts.deep_view())),
{
    let ghost names = hostnames(hosts.deep_view());
    let ghost h = hosts.len() as nat;
    let ghost all = mesh_adjacencies(names);
    let mut out: Vec<Adjacency> = Vec::new();
    let mut link_count: usize = 0;
    let mut pos: usize = 0;
    assert(out.deep_view() =~= all.take(0));
    while pos < hosts.len()
        invariant
            pos <= hosts.len(),
            h == hosts.len(),
            names == hostnames(hosts.deep_view()),
            all == mesh_adjacencies(names),
            link_count == mesh_rows(h, pos as nat).len(),
            link_count <= mesh_pairs(h).len(),
            out.len() == 2 * link_count,
            out.deep_view() == all.take(2 * link_count),
        decreases hosts.len() - pos,
    {
        let mut j: usize = pos + 1;
        while j < hosts.len()
            invariant
                pos < j <= hosts.len(),
                h == hosts.len(),
                names == hostnames(hosts.deep_view()),
                all == mesh_adjacencies(names),
                link_count == mesh_rows(h, pos as nat).len() + (j - pos - 1),
                link_count <= mesh_pairs(h).len(),
                out.len() == 2 * link_count,
                out.deep_view() == all.take(2 * link_count),
            decreases hosts.len() - j,
        {
            proof {
                lemma_mesh_rows_index(h, h, pos as nat, j as nat);
            }
            let ghost before = out.deep_view();
            let name = numbered("link", (link_count as u128) + 1);
            let src = Adjacency {
                host1_id: hosts[pos].hostname.clone(),
                host1_port: j,
                link_name: name.clone(),
                link_side: "src".to_owned(),
            };
            let dst = Adjacency {
                host1_id: hosts[j].hostname.clone(),
                host1_port: pos + 1,
                link_name: name,
                link_side: "dst".to_owned(),
            };
            out.push(src);
            out.push(dst);
            proof {
                let n = 2 * link_count as int;
                assert(src@ == mesh_endpoint(names, mesh_pairs(h), n));
                assert(dst@ == mesh_endpoint(names, mesh_pairs(h), n + 1));
                assert(out.deep_view() =~= before.push(src@).push(dst@));
                assert(out.deep_view() =~= all.take(n + 2));
            }
            link_count += 1;
            j += 1;
        }
        proof {
            if pos + 1 < h {
                lemma_mesh_rows_index(h, h, pos as nat, (pos + 1) as nat);
            } else {
                assert(mesh_row(h, pos as nat).len() == 0);
            }
        }
        pos += 1;
    }
    assert(all.take(2 * link_count as int) =~= all);
    out
}

/// The link names of a list of attachments, one for each attachment.
pub open spec fn link_names(adjacencies: Seq<AdjacencyView>) -> Seq<Seq<char>> {
    Seq::new(adjacencies.len(), |n: int| adjacencies[n].link_name)
}

/// The links that a list of attachments names, in the order in which they are first seen,
/// where the attachments of one link stand together.
pub fn link_list(adjacents: &Vec<Adjacency>) -> (r: Vec<Link>)
    ensures
        r.deep_view() == dedup_runs(link_names(adjacents.deep_view())),
{
    let mut names: Vec<String> = Vec::new();
    let mut i: usize = 0;
    while i < adjacents.len()
        invariant
            i <= adjacents.len(),
            names.deep_view() == link_names(adjacents.deep_view()).take(i as int),
        decreases adjacents.len() - i,
    {
        let ghost before = names.deep_view();
        names.push(adjacents[i].link_name.clone());
        assert(names.deep_view() =~= before.push(adjacents[i as int].link_name@));
        i += 1;
        assert(names.deep_view() =~= link_names(adjacents.deep_view()).take(i as int));
    }
    assert(names.deep_view() =~= link_names(adjacents.deep_view()));
    let kept = dedup_names(names);
    let mut out: Vec<Link> = Vec::new();
    let mut k: usize = 0;
    while k < kept.len()
        invariant
            k <= kept.len(),
            out.deep_view() == kept.deep_view().take(k as int),
        decreases kept.len() - k,
    {
        let ghost before = out.deep_view();
        out.push(Link { id: kept[k].clone() });
        assert(out.deep_view() =~= before.push(kept[k as int]@));
        k += 1;
        assert(out.deep_view() =~= kept.deep_view().take(k as int));
    }
    assert(out.deep_view() =~= kept.deep_view());
    out
}

/// In a mesh the two attachments of each link stand together and no two links share a name,
/// so the links first seen are the links of the mesh, in order.
pub proof fn lemma_mesh_link_list(names: Seq<Seq<char>>)
    ensures
        dedup_runs(link_names(mesh_adjacencies(names))) == mesh_links(names.len()),
{
    let all = link_names(mesh_adjacencies(names));
    let count = mesh_pairs(names.len()).len();
    lemma_mesh_link_prefix(names, count);
    assert(all.take(2 * count as int) =~= all);
    assert(mesh_links(names.len()).take(count as int) =~= mesh_links(names.len()));
}

/// The links first seen among the attachments of the first `m` pairs are the first `m` links.
proof fn lemma_mesh_link_prefix(names: Seq<Seq<char>>, m: nat)
    requires
        m <= mesh_pairs(names.len()).len(),
    ensures
        dedup_runs(link_names(mesh_adjacencies(names)).take(2 * m as int)) == mesh_links(
            names.len(),
        ).take(m as int),
    decreases m,
{
    let all = link_names(mesh_adjacencies(names));
    let links = mesh_links(names.len());
    if m == 0 {
        assert(all.take(0) =~= Seq::<Seq<char>>::empty());
        assert(links.take(0) =~= Seq::<Seq<char>>::empty());
    } else {
        let k = (m - 1) as nat;
        let n = 2 * k as int;
        lemma_mesh_link_prefix(names, k);
        let odd = all.take(n + 1);
        let even = all.take(n + 2);
        assert(odd.drop_last() =~= all.take(n));
        assert(even.drop_last() =~= odd);
        assert(odd.last() == link_name(k + 1));
        assert(even.last() == link_name(k + 1));
        if k > 0 {
            assert(odd[odd.len() - 2] == link_name(k));
            if link_name(k) == link_name(k + 1) {
                lemma_numbered_injective("link"@, k, k + 1);
            }
        }
        assert(dedup_runs(odd) == dedup_runs(all.take(n)).push(link_name(k + 1)));
        assert(even[even.len() - 2] == even.last());
        assert(dedup_runs(even) == dedup_runs(odd));
        assert(links.take(m as int) =~= links.take(k as int).push(link_name(k + 1)));
    }
}

/// The devices of the host called `hostname`: one for each of its attachments, numbered in
/// the order of the attachments.
pub fn mesh_device_list(adjacents: &Vec<Adjacency>, hostname: &String) -> (r: Vec<Device>)
    ensures
        r.deep_view() == mesh_devices(owned(adjacents.deep_view(), hostname@)),
{
    let ghost all = adjacents.deep_view();
    let ghost is_own = |a: AdjacencyView| a.host1_id == hostname@;
    let mut out: Vec<Device> = Vec::new();
    let mut i: usize = 0;
    proof {
        assert(all.take(0).filter(is_own) =~= Seq::<AdjacencyView>::empty()) by {
            reveal(Seq::filter);
        }
        assert(out.deep_view() =~= mesh_devices(all.take(0).filter(is_own)));
    }
    while i < adjacents.len()
        invariant
            i <= adjacents.len(),
            all == adjacents.deep_view(),
            is_own == (|a: AdjacencyView| a.host1_id == hostname@),
            out.deep_view() == mesh_devices(all.take(i as int).filter(is_own)),
            out.len() == all.take(i as int).filter(is_own).len(),
        decreases adjacents.len() - i,
    {
        let ghost before = out.deep_view();
        let ghost own = all.take(i as int).filter(is_own);
        proof {
            assert(all.take(i + 1) =~= all.take(i as int).push(all[i as int]));
            all.take(i as int).lemma_filter_push(all[i as int], is_own);
        }
        if adjacents[i].host1_id == *hostname {
            let device = Device {
                name: numbered("ens", (out.len() as u128) + 7),
                link: adjacents[i].link_name.clone(),
            };
            out.push(device);
            proof {
                assert(out.deep_view() =~= before.push(device@));
                assert(out.deep_view() =~= mesh_devices(own.push(all[i as int])));
            }
        }
        i += 1;
    }
    assert(all.take(adjacents.len() as int) =~= all);
    out
}

impl Config {
    /// Derives the full mesh: every pair of hosts gets a link of its own, and every host one
    /// device for each link it is attached to. The port counters of the hosts start at zero,
    /// and devices that a host declared are replaced by the derived ones.
    pub fn into(self) -> (graph: DSLConfig)
        ensures
            graph@ == mesh_graph(self@),
            consistent(graph@),
            forall|i: int| 0 <= i < graph@.hosts.len() ==> (#[trigger] graph@.hosts[i]).well_formed(),
    {
        let Config { testbed } = self;
        let Testbed { id, description, hosts } = testbed;
        let ghost old_hosts = hosts.deep_view();
        let adjacents = mesh_attachments(&hosts);
        let link = link_list(&adjacents);
        proof {
            lemma_mesh_link_list(hostnames(old_hosts));
            lemma_mesh_consistent(self@);
        }
        let mut new_hosts: Vec<Host> = Vec::new();
        let mut i: usize = 0;
        while i < hosts.len()
            invariant
                i <= hosts.len(),
                old_hosts == hosts.deep_view(),
                adjacents.deep_view() == mesh_adjacencies(hostnames(old_hosts)),
                new_hosts.len() == i,
                forall|k: int|
                    0 <= k < i ==> #[trigger] new_hosts[k]@ == mesh_host(
                        old_hosts[k],
                        old_hosts.len(),
                        adjacents.deep_view(),
                    ),
            decreases hosts.len() - i,
        {
            let mut host = hosts[i].clone();
            host.used_ports = hosts.len() - 1;
            host.devices = mesh_device_list(&adjacents, &host.hostname);
            new_hosts.push(host);
            i += 1;
        }
        let graph = DSLConfig { description, id, hosts: new_hosts, link, adjacents };
        proof {
            assert(graph@.hosts =~= mesh_graph(self@).hosts);
            assert forall|i: int| 0 <= i < graph@.hosts.len() implies (
            #[trigger] graph@.hosts[i]).well_formed() by {
                lemma_mesh_devices_distinct(owned(graph@.adjacents, old_hosts[i].hostname));
            }
        }
        graph
    }
}

/// The devices of a mesh host have different names.
pub proof fn lemma_mesh_devices_distinct(own: Seq<AdjacencyView>)
    ensures
        distinct_names(mesh_devices(own)),
{
    let devices = mesh_devices(own);
    assert forall|a: int, b: int| 0 <= a < b < devices.len() implies (#[trigger] devices[a]).name
        != (#[trigger] devices[b]).name by {
        if devices[a].name == devices[b].name {
            lemma_numbered_injective("ens"@, (a + 7) as nat, (b + 7) as nat);
        }
    }
}

/// Twice the number of pairs in the first `rows` rows of a mesh between `h` hosts.
pub proof fn lemma_mesh_rows_len(h: nat, rows: nat)
    requires
        rows <= h,
    ensures
        2 * mesh_rows(h, rows).len() == rows * (2 * h - rows - 1),
    decreases rows,
{
    if rows > 0 {
        let r = (rows - 1) as nat;
        lemma_mesh_rows_len(h, r);
        assert(mesh_rows(h, rows).len() == mesh_rows(h, r).len() + (h - 1 - r));
        assert((r + 1) * (2 * h - (r + 1) - 1) == r * (2 * h - r - 1) + 2 * (h - 1 - r))
            by (nonlinear_arith);
    } else {
        assert(0 * (2 * h - 0 - 1) == 0) by (nonlinear_arith);
    }
}

/// How many of the attachments of the first `rows` rows and the first `done` pairs of the
/// next row belong to host `i`.
spec fn owned_so_far(h: nat, i: nat, rows: nat, done: nat) -> nat {
    let before: nat = if rows <= i {
        rows
    } else {
        (h - 1) as nat
    };
    let here: nat = if rows == i {
        done
    } else if rows < i && i <= rows + done {
        1
    } else {
        0
    };
    before + here
}

/// Among the attachments of the first `rows` rows and the first `done` pairs of the next row,
/// host `i` has `owned_so_far` attachments.
proof fn lemma_owned_prefix(names: Seq<Seq<char>>, i: nat, rows: nat, done: nat)
    requires
        names.no_duplicates(),
        i < names.len(),
        rows <= names.len(),
        rows + done < names.len() || done == 0,
    ensures
        mesh_rows(names.len(), rows).len() + done <= mesh_pairs(names.len()).len(),
        owned(
            mesh_adjacencies(names).take(2 * (mesh_rows(names.len(), rows).len() + done) as int),
            names[i as int],
        ).len() == owned_so_far(names.len(), i, rows, done),
    decreases rows, done,
{
    let h = names.len();
    let all = mesh_adjacencies(names);
    let is_own = |a: AdjacencyView| a.host1_id == names[i as int];
    let start = mesh_rows(h, rows).len();
    if done > 0 {
        let d = (done - 1) as nat;
        lemma_owned_prefix(names, i, rows, d);
        lemma_mesh_rows_index(h, h, rows, rows + done);
        let m = (start + d) as int;
        assert(mesh_pairs(h)[m] == (rows, rows + done));
        let first = all.take(2 * m);
        let second = all.take(2 * m + 1);
        assert(second =~= first.push(all[2 * m]));
        assert(all.take(2 * m + 2) =~= second.push(all[2 * m + 1]));
        first.lemma_filter_push(all[2 * m], is_own);
        second.lemma_filter_push(all[2 * m + 1], is_own);
        assert(all[2 * m].host1_id == names[rows as int]);
        assert(all[2 * m + 1].host1_id == names[(rows + done) as int]);
    } else if rows > 0 {
        let r = (rows - 1) as nat;
        lemma_owned_prefix(names, i, r, (h - 1 - r) as nat);
    } else {
        assert(all.take(0).filter(is_own) =~= Seq::<AdjacencyView>::empty()) by {
            reveal(Seq::filter);
        }
    }
}

/// The pair `(i, j)` is the pair number `i * (2 * h - i - 1) / 2 + (j - i - 1)` of a mesh
/// between `h` hosts: the pairs stand in the order of `i`, and for one `i` in the order of `j`.
pub proof fn lemma_mesh_pair_index(h: nat, i: nat, j: nat)
    requires
        i < j < h,
    ensures
        i * (2 * h - i - 1) / 2 + (j - i - 1) < mesh_pairs(h).len(),
        mesh_pairs(h)[i * (2 * h - i - 1) / 2 + (j - i - 1)] == (i, j),
{
    lemma_mesh_rows_len(h, i);
    lemma_mesh_rows_index(h, h, i, j);
}

/// A mesh between `h` hosts has `h * (h - 1) / 2` links and twice as many attachments.
pub proof fn lemma_mesh_link_count(testbed: TestbedView)
    ensures
        mesh_graph(testbed).link.len() == testbed.hosts.len() * (testbed.hosts.len() - 1) / 2,
        mesh_graph(testbed).adjacents.len() == testbed.hosts.len() * (testbed.hosts.len() - 1),
{
    let h = testbed.hosts.len();
    lemma_mesh_rows_len(h, h);
    assert(h * (2 * h - h - 1) == h * (h - 1)) by (nonlinear_arith);
}

/// In a mesh between `h` hosts of different names, every host has `h - 1` attachments and
/// as many devices.
pub proof fn lemma_mesh_host_count(testbed: TestbedView, i: int)
    requires
        hostnames(testbed.hosts).no_duplicates(),
        0 <= i < testbed.hosts.len(),
    ensures
        owned(mesh_graph(testbed).adjacents, testbed.hosts[i].hostname).len()
            == testbed.hosts.len() - 1,
        mesh_graph(testbed).hosts[i].devices.len() == testbed.hosts.len() - 1,
{
    let names = hostnames(testbed.hosts);
    let h = names.len();
    lemma_owned_prefix(names, i as nat, h, 0);
    let all = mesh_adjacencies(names);
    assert(all.take(2 * mesh_rows(h, h).len() as int) =~= all);
}

/// Every pair of a mesh joins an earlier host to a later one.
pub proof fn lemma_mesh_pair_bounds(h: nat, rows: nat, k: int)
    requires
        rows <= h,
        0 <= k < mesh_rows(h, rows).len(),
    ensures
        mesh_rows(h, rows)[k].0 < mesh_rows(h, rows)[k].1 < h,
    decreases rows,
{
    let before = mesh_rows(h, (rows - 1) as nat);
    if k < before.len() {
        lemma_mesh_pair_bounds(h, (rows - 1) as nat, k);
    } else {
        assert(mesh_rows(h, rows)[k] == mesh_row(h, (rows - 1) as nat)[k - before.len()]);
    }
}

/// The attachments of a mesh come in pairs, one pair for each link, and no two links share
/// a name.
pub proof fn lemma_mesh_paired(names: Seq<Seq<char>>)
    ensures
        paired(mesh_adjacencies(names), mesh_links(names.len())),
{
    let links = mesh_links(names.len());
    assert forall|a: int, b: int| 0 <= a < links.len() && 0 <= b < links.len() && a != b implies links[a]
        != links[b] by {
        if links[a] == links[b] {
            lemma_numbered_injective("link"@, (a + 1) as nat, (b + 1) as nat);
        }
    }
}

/// In a mesh every link that a device names has exactly two attachments.
pub proof fn lemma_mesh_consistent(testbed: TestbedView)
    ensures
        consistent(mesh_graph(testbed)),
{
    let graph = mesh_graph(testbed);
    let names = hostnames(testbed.hosts);
    assert forall|i: int, d: int|
        0 <= i < graph.hosts.len() && 0 <= d < graph.hosts[i].devices.len() implies attachments_of(
        graph.adjacents,
        (#[trigger] graph.hosts[i].devices[d]).link,
    ).len() == 2 by {
        let n = lemma_mesh_device_origin(testbed, i, d);
        lemma_mesh_paired(names);
        lemma_paired_attachments(graph.adjacents, graph.link, n / 2, names[i]);
    }
}

/// The attachment from which a device of a mesh has its link: it belongs to the host of the
/// device.
pub proof fn lemma_mesh_device_origin(testbed: TestbedView, i: int, d: int) -> (n: int)
    requires
        0 <= i < testbed.hosts.len(),
        0 <= d < mesh_graph(testbed).hosts[i].devices.len(),
    ensures
        0 <= n < mesh_graph(testbed).adjacents.len(),
        mesh_graph(testbed).adjacents[n].host1_id == testbed.hosts[i].hostname,
        mesh_graph(testbed).adjacents[n].link_name == mesh_graph(testbed).hosts[i].devices[d].link,
{
    let all = mesh_graph(testbed).adjacents;
    let is_own = |a: AdjacencyView| a.host1_id == testbed.hosts[i].hostname;
    assert(mesh_graph(testbed).hosts[i] == mesh_host(testbed.hosts[i], testbed.hosts.len(), all));
    assert(owned(all, testbed.hosts[i].hostname) == all.filter(is_own));
    assert(mesh_graph(testbed).hosts[i].devices.len() == all.filter(is_own).len());
    let own = all.filter(is_own)[d];
    all.lemma_filter_pred(is_own, d);
    assert(all.filter(is_own).contains(own));
    all.lemma_filter_contains_rev(is_own, own);
    choose|n: int| 0 <= n < all.len() && all[n] == own
}

/// In a mesh between hosts of different names, a host has exactly one attachment to each
/// link that one of its devices names.
pub proof fn lemma_mesh_host_attachments(testbed: TestbedView, i: int, d: int)
    requires
        hostnames(testbed.hosts).no_duplicates(),
        0 <= i < testbed.hosts.len(),
        0 <= d < mesh_graph(testbed).hosts[i].devices.len(),
    ensures
        attachments_between(
            mesh_graph(testbed).adjacents,
            testbed.hosts[i].hostname,
            mesh_graph(testbed).hosts[i].devices[d].link,
        ).len() == 1,
{
    let graph = mesh_graph(testbed);
    let names = hostnames(testbed.hosts);
    let n = lemma_mesh_device_origin(testbed, i, d);
    let k = n / 2;
    lemma_mesh_paired(names);
    lemma_paired_attachments(graph.adjacents, graph.link, k, names[i]);
    lemma_mesh_pair_bounds(names.len(), names.len(), k);
    let (a, b) = mesh_pairs(names.len())[k];
    assert(graph.adjacents[2 * k].host1_id == names[a as int]);
    assert(graph.adjacents[2 * k + 1].host1_id == names[b as int]);
    assert(n == 2 * k || n == 2 * k + 1);
}

} // verus!
