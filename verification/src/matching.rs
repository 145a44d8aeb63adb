//! Derivation from declared devices: hosts that name the same link are joined by it.

use crate::error::{TopologyError, TopologyErrorView};
use crate::graph::{attachments_between, attachments_of, consistent, lemma_paired_attachments, paired};
use crate::model::{
    hostnames, Adjacency, AdjacencyView, Config, DSLConfig, DSLConfigView, DeviceView, Host,
    HostView, Link, Testbed, TestbedView,
};
use crate::sorting::{lemma_sort_by_name, sort_by_name, sorted_devices};
use crate::text::{lex_lt, str_lt};
use vstd::prelude::*;
use vstd::string::*;

verus! {

/// Whether one of the host's devices is attached to `link`.
pub open spec fn declares(host: HostView, link: Seq<char>) -> bool {
    exists|d: int| 0 <= d < host.devices.len() && (#[trigger] host.devices[d]).link == link
}

/// The positions of the hosts that declare `link`, in registry order.
pub open spec fn attached_hosts(hosts: Seq<HostView>, link: Seq<char>) -> Seq<int>
    decreases hosts.len(),
{
    if hosts.len() == 0 {
        Seq::empty()
    } else if declares(hosts.last(), link) {
        attached_hosts(hosts.drop_last(), link).push(hosts.len() - 1)
    } else {
        attached_hosts(hosts.drop_last(), link)
    }
}

/// The names of the hosts at `positions`.
pub open spec fn names_at(hosts: Seq<HostView>, positions: Seq<int>) -> Seq<Seq<char>> {
    Seq::new(positions.len(), |k: int| hosts[positions[k]].hostname)
}

/// How many of the devices are attached to a link whose name comes before `link`: the place
/// of `link` among the sorted link names of the host.
pub open spec fn link_rank(devices: Seq<DeviceView>, link: Seq<char>) -> nat
    decreases devices.len(),
{
    if devices.len() == 0 {
        0
    } else if lex_lt(devices.last().link, link) {
        link_rank(devices.drop_last(), link) + 1
    } else {
        link_rank(devices.drop_last(), link)
    }
}

/// Positions as mathematical integers.
pub open spec fn positions_of(found: Seq<usize>) -> Seq<int> {
    Seq::new(found.len(), |k: int| found[k] as int)
}

/// The attachment of `link` to the host at `position`, on the given side.
pub open spec fn endpoint(hosts: Seq<HostView>, link: Seq<char>, position: int, side: Seq<char>)
    -> AdjacencyView {
    AdjacencyView {
        host1_id: hosts[position].hostname,
        host1_port: link_rank(hosts[position].devices, link),
        link_name: link,
        link_side: side,
    }
}

/// What is wrong with `link`, if it does not join exactly two hosts.
pub open spec fn link_fault(hosts: Seq<HostView>, link: Seq<char>) -> Option<TopologyErrorView> {
    let found = attached_hosts(hosts, link);
    if found.len() == 2 {
        None
    } else if found.len() == 0 {
        Some(TopologyErrorView::NotConnected { link })
    } else if found.len() == 1 {
        Some(TopologyErrorView::UnderConnected { link, host: hosts[found[0]].hostname })
    } else {
        Some(TopologyErrorView::OverConnected { link, hosts: names_at(hosts, found) })
    }
}

/// The two attachments of `link`, source first, or what is wrong with it.
pub open spec fn resolved(hosts: Seq<HostView>, link: Seq<char>) -> Result<
    (AdjacencyView, AdjacencyView),
    TopologyErrorView,
> {
    let found = attached_hosts(hosts, link);
    match link_fault(hosts, link) {
        Some(fault) => Err(fault),
        None => Ok(
            (endpoint(hosts, link, found[0], "src"@), endpoint(hosts, link, found[1], "dst"@)),
        ),
    }
}

/// The link names of a host, in the order of its device names.
pub open spec fn host_links(host: HostView) -> Seq<Seq<char>> {
    let devices = sort_by_name(host.devices);
    Seq::new(devices.len(), |d: int| devices[d].link)
}

/// `names` without the names that `seen` holds or that occur earlier in `names`, behind `seen`.
pub open spec fn first_seen(seen: Seq<Seq<char>>, names: Seq<Seq<char>>) -> Seq<Seq<char>>
    decreases names.len(),
{
    if names.len() == 0 {
        seen
    } else {
        let rest = first_seen(seen, names.drop_last());
        if rest.contains(names.last()) {
            rest
        } else {
            rest.push(names.last())
        }
    }
}

/// The distinct link names that the hosts declare, in the order in which they are first seen
/// when the hosts are visited in registry order and the devices of each in name order.
pub open spec fn declared_links(hosts: Seq<HostView>) -> Seq<Seq<char>>
    decreases hosts.len(),
{
    if hosts.len() == 0 {
        Seq::empty()
    } else {
        first_seen(declared_links(hosts.drop_last()), host_links(hosts.last()))
    }
}

/// The attachments of `links`, two for each, or the fault of the first link that has one.
pub open spec fn matched(hosts: Seq<HostView>, links: Seq<Seq<char>>) -> Result<
    Seq<AdjacencyView>,
    TopologyErrorView,
>
    decreases links.len(),
{
    if links.len() == 0 {
        Ok(Seq::empty())
    } else {
        match matched(hosts, links.drop_last()) {
            Err(fault) => Err(fault),
            Ok(adjacencies) => match resolved(hosts, links.last()) {
                Err(fault) => Err(fault),
                Ok((src, dst)) => Ok(adjacencies.push(src).push(dst)),
            },
        }
    }
}

/// The link graph of a testbed whose hosts declare their devices, or the first fault.
pub open spec fn matched_graph(testbed: TestbedView) -> Result<DSLConfigView, TopologyErrorView> {
    let links = declared_links(testbed.hosts);
    match matched(testbed.hosts, links) {
        Err(fault) => Err(fault),
        Ok(adjacencies) => Ok(
            DSLConfigView {
                description: testbed.description,
                id: testbed.id,
                hosts: testbed.hosts,
                link: links,
                adjacents: adjacencies,
            },
        ),
    }
}

/// Whether one of the host's devices is attached to `link`.
pub fn declares_link(host: &Host, link: &String) -> (r: bool)
    ensures
        r == declares(host@, link@),
{
    let mut d: usize = 0;
    while d < host.devices.len()
        invariant
            d <= host.devices.len(),
            forall|k: int| 0 <= k < d ==> (#[trigger] host@.devices[k]).link != link@,
        decreases host.devices.len() - d,
    {
        if host.devices[d].link == *link {
            assert(host@.devices[d as int].link == link@);
            return true;
        }
        d += 1;
    }
    false
}

/// The positions of the hosts that declare `link`, in registry order.
pub fn attached(hosts: &Vec<Host>, link: &String) -> (r: Vec<usize>)
    ensures
        positions_of(r@) == attached_hosts(hosts.deep_view(), link@),
        forall|k: int| 0 <= k < r.len() ==> r[k] < hosts.len(),
{
    let ghost all = hosts.deep_view();
    let mut found: Vec<usize> = Vec::new();
    let mut i: usize = 0;
    assert(positions_of(found@) =~= attached_hosts(all.take(0), link@));
    while i < hosts.len()
        invariant
            i <= hosts.len(),
            all == hosts.deep_view(),
            positions_of(found@) == attached_hosts(all.take(i as int), link@),
            forall|k: int| 0 <= k < found.len() ==> found[k] < hosts.len(),
        decreases hosts.len() - i,
    {
        let ghost before = positions_of(found@);
        assert(all.take(i + 1).drop_last() =~= all.take(i as int));
        if declares_link(&hosts[i], link) {
            found.push(i);
            assert(positions_of(found@) =~= before.push(i as int));
        }
        i += 1;
    }
    assert(all.take(hosts.len() as int) =~= all);
    found
}

/// The place of `link` among the sorted link names of the host.
pub fn rank_of_link(host: &Host, link: &String) -> (r: usize)
    ensures
        r == link_rank(host@.devices, link@),
{
    let ghost all = host@.devices;
    let mut rank: usize = 0;
    let mut d: usize = 0;
    while d < host.devices.len()
        invariant
            d <= host.devices.len(),
            all == host@.devices,
            rank <= d,
            rank == link_rank(all.take(d as int), link@),
        decreases host.devices.len() - d,
    {
        assert(all.take(d + 1).drop_last() =~= all.take(d as int));
        if str_lt(host.devices[d].link.as_str(), link.as_str()) {
            rank += 1;
        }
        d += 1;
    }
    assert(all.take(host.devices.len() as int) =~= all);
    rank
}

/// The hostnames of the hosts at `positions`, in that order.
pub fn hostnames_at(hosts: &Vec<Host>, positions: &Vec<usize>) -> (r: Vec<String>)
    requires
        forall|k: int| 0 <= k < positions.len() ==> positions[k] < hosts.len(),
    ensures
        r.deep_view() == names_at(hosts.deep_view(), positions_of(positions@)),
{
    let mut names: Vec<String> = Vec::new();
    let mut k: usize = 0;
    while k < positions.len()
        invariant
            k <= positions.len(),
            forall|k: int| 0 <= k < positions.len() ==> positions[k] < hosts.len(),
            names.len() == k,
            forall|n: int|
                0 <= n < k ==> (#[trigger] names[n])@ == hosts.deep_view()[positions[n] as int].hostname,
        decreases positions.len() - k,
    {
        names.push(hosts[positions[k]].hostname.clone());
        k += 1;
    }
    assert(names.deep_view() =~= names_at(hosts.deep_view(), positions_of(positions@)));
    names
}

/// The attachment of `link` to the host at `position`, on the given side.
fn endpoint_of(hosts: &Vec<Host>, link: &String, position: usize, side: &str) -> (r: Adjacency)
    requires
        position < hosts.len(),
    ensures
        r@ == endpoint(hosts.deep_view(), link@, position as int, side@),
{
    Adjacency {
        host1_id: hosts[position].hostname.clone(),
        host1_port: rank_of_link(&hosts[position], link),
        link_name: link.clone(),
        link_side: side.to_owned(),
    }
}

/// Finds the two hosts that `link` joins: the first in registry order is its source, the
/// second its destination. A link that no host, one host or more than two hosts declare is
/// refused, with the hosts that declare it.
pub fn resolve_link(hosts: &Vec<Host>, link: &String) -> (r: Result<
    (Adjacency, Adjacency),
    TopologyError,
>)
    ensures
        match r {
            Ok((src, dst)) => resolved(hosts.deep_view(), link@) == Ok::<
                (AdjacencyView, AdjacencyView),
                TopologyErrorView,
            >((src@, dst@)),
            Err(fault) => resolved(hosts.deep_view(), link@) == Err::<
                (AdjacencyView, AdjacencyView),
                TopologyErrorView,
            >(fault@),
        },
{
    let found = attached(hosts, link);
    let ghost positions = positions_of(found@);
    if found.len() == 2 {
        assert(positions[0] == found[0] && positions[1] == found[1]);
        let src = endpoint_of(hosts, link, found[0], "src");
        let dst = endpoint_of(hosts, link, found[1], "dst");
        Ok((src, dst))
    } else if found.len() == 0 {
        Err(TopologyError::NotConnected { link: link.clone() })
    } else if found.len() == 1 {
        assert(positions[0] == found[0]);
        Err(
            TopologyError::UnderConnected {
                link: link.clone(),
                host: hosts[found[0]].hostname.clone(),
            },
        )
    } else {
        Err(TopologyError::OverConnected { link: link.clone(), hosts: hostnames_at(hosts, &found) })
    }
}

/// Whether `names` holds `name`.
pub fn holds_name(names: &Vec<String>, name: &String) -> (r: bool)
    ensures
        r == names.deep_view().contains(name@),
{
    let mut k: usize = 0;
    while k < names.len()
        invariant
            k <= names.len(),
            forall|n: int| 0 <= n < k ==> names.deep_view()[n] != name@,
        decreases names.len() - k,
    {
        if names[k] == *name {
            assert(names.deep_view()[k as int] == name@);
            return true;
        }
        k += 1;
    }
    false
}

/// The distinct link names that the hosts declare, in the order in which they are first seen.
pub fn declared_link_list(hosts: &Vec<Host>) -> (r: Vec<String>)
    ensures
        r.deep_view() == declared_links(hosts.deep_view()),
{
    let ghost all = hosts.deep_view();
    let mut links: Vec<String> = Vec::new();
    let mut i: usize = 0;
    assert(links.deep_view() =~= declared_links(all.take(0)));
    while i < hosts.len()
        invariant
            i <= hosts.len(),
            all == hosts.deep_view(),
            links.deep_view() == declared_links(all.take(i as int)),
        decreases hosts.len() - i,
    {
        let devices = sorted_devices(&hosts[i].devices);
        let ghost seen = links.deep_view();
        let ghost names = host_links(all[i as int]);
        let mut d: usize = 0;
        assert(names.take(0) =~= Seq::<Seq<char>>::empty());
        while d < devices.len()
            invariant
                d <= devices.len(),
                devices.deep_view() == sort_by_name(all[i as int].devices),
                names == host_links(all[i as int]),
                links.deep_view() == first_seen(seen, names.take(d as int)),
            decreases devices.len() - d,
        {
            let ghost before = links.deep_view();
            assert(names.take(d + 1).drop_last() =~= names.take(d as int));
            assert(names[d as int] == devices[d as int].link@);
            if !holds_name(&links, &devices[d].link) {
                links.push(devices[d].link.clone());
                assert(links.deep_view() =~= before.push(names[d as int]));
            }
            d += 1;
        }
        assert(names.take(devices.len() as int) =~= names);
        assert(all.take(i + 1).drop_last() =~= all.take(i as int));
        i += 1;
    }
    assert(all.take(hosts.len() as int) =~= all);
    links
}

/// A fault found among the first links is the fault of the whole list.
pub proof fn lemma_matched_fault(hosts: Seq<HostView>, links: Seq<Seq<char>>, k: int)
    requires
        0 <= k <= links.len(),
        matched(hosts, links.take(k)) is Err,
    ensures
        matched(hosts, links) == matched(hosts, links.take(k)),
    decreases links.len() - k,
{
    if k < links.len() {
        assert(links.take(k + 1).drop_last() =~= links.take(k));
        lemma_matched_fault(hosts, links, k + 1);
    } else {
        assert(links.take(k) =~= links);
    }
}

/// Derives the link graph from the devices that the hosts declare: every declared link must
/// join exactly two hosts, and gets one attachment for each. The first link that does not is
/// reported, and nothing is derived.
pub fn derive_explicit(config: Config) -> (r: Result<DSLConfig, TopologyError>)
    ensures
        match r {
            Ok(graph) => matched_graph(config@) == Ok::<DSLConfigView, TopologyErrorView>(graph@)
                && consistent(graph@),
            Err(fault) => matched_graph(config@) == Err::<DSLConfigView, TopologyErrorView>(
                fault@,
            ),
        },
        r is Ok <==> forall|i: int, d: int|
            0 <= i < config@.hosts.len() && 0 <= d < config@.hosts[i].devices.len()
                ==> attached_hosts(
                config@.hosts,
                (#[trigger] config@.hosts[i].devices[d]).link,
            ).len() == 2,
{
    proof {
        lemma_matched_graph_valid(config@);
    }
    let Config { testbed } = config;
    let Testbed { id, description, hosts } = testbed;
    let ghost all = hosts.deep_view();
    let names = declared_link_list(&hosts);
    let ghost links = names.deep_view();
    let mut adjacents: Vec<Adjacency> = Vec::new();
    let mut link: Vec<Link> = Vec::new();
    let mut k: usize = 0;
    assert(adjacents.deep_view() =~= Seq::<AdjacencyView>::empty());
    assert(links.take(0) =~= Seq::<Seq<char>>::empty());
    assert(link.deep_view() =~= links.take(0));
    while k < names.len()
        invariant
            k <= names.len(),
            all == hosts.deep_view(),
            all == config@.hosts,
            links == names.deep_view(),
            links == declared_links(all),
            matched(all, links.take(k as int)) == Ok::<Seq<AdjacencyView>, TopologyErrorView>(
                adjacents.deep_view(),
            ),
            link.deep_view() == links.take(k as int),
        decreases names.len() - k,
    {
        let ghost before = adjacents.deep_view();
        let ghost listed = link.deep_view();
        proof {
            assert(links.take(k + 1).drop_last() =~= links.take(k as int));
            assert(links.take(k + 1).last() == names[k as int]@);
        }
        match resolve_link(&hosts, &names[k]) {
            Err(fault) => {
                proof {
                    assert(matched(all, links.take(k + 1)) == Err::<
                        Seq<AdjacencyView>,
                        TopologyErrorView,
                    >(fault@));
                    lemma_matched_fault(all, links, k + 1);
                    lemma_matched_graph_valid(config@);
                }
                return Err(fault);
            },
            Ok((src, dst)) => {
                adjacents.push(src);
                adjacents.push(dst);
                link.push(Link { id: names[k].clone() });
                proof {
                    assert(adjacents.deep_view() =~= before.push(src@).push(dst@));
                    assert(link.deep_view() =~= listed.push(names[k as int]@));
                }
            },
        }
        k += 1;
    }
    assert(links.take(names.len() as int) =~= links);
    Ok(DSLConfig { description, id, hosts, link, adjacents })
}

/// The hosts attached to a link are the hosts that declare it, each once, in registry
/// order.
pub proof fn lemma_attached_hosts(hosts: Seq<HostView>, link: Seq<char>)
    ensures
        forall|k: int|
            0 <= k < attached_hosts(hosts, link).len() ==> {
                let p = #[trigger] attached_hosts(hosts, link)[k];
                0 <= p < hosts.len() && declares(hosts[p], link)
            },
        forall|a: int, b: int|
            0 <= a < b < attached_hosts(hosts, link).len() ==> attached_hosts(hosts, link)[a]
                < attached_hosts(hosts, link)[b],
        forall|p: int|
            0 <= p < hosts.len() && declares(#[trigger] hosts[p], link) ==> attached_hosts(
                hosts,
                link,
            ).contains(p),
    decreases hosts.len(),
{
    if hosts.len() > 0 {
        let front = hosts.drop_last();
        let found = attached_hosts(hosts, link);
        let before = attached_hosts(front, link);
        lemma_attached_hosts(front, link);
        assert forall|p: int| 0 <= p < hosts.len() && declares(#[trigger] hosts[p], link) implies found.contains(
            p,
        ) by {
            if p < front.len() {
                assert(front[p] == hosts[p]);
                assert(before.contains(p));
                let k = choose|k: int| 0 <= k < before.len() && before[k] == p;
                assert(found[k] == p);
            } else {
                assert(found[found.len() - 1] == p);
            }
        }
        assert forall|k: int| 0 <= k < found.len() implies {
            let p = #[trigger] found[k];
            0 <= p < hosts.len() && declares(hosts[p], link)
        } by {
            if k < before.len() {
                assert(found[k] == before[k]);
                assert(front[before[k]] == hosts[before[k]]);
            }
        }
        assert forall|a: int, b: int| 0 <= a < b < found.len() implies found[a] < found[b] by {
            assert(found[a] == before[a]);
            if b < before.len() {
                assert(found[b] == before[b]);
            }
        }
    }
}

/// The names first seen are the names seen before and the new ones, each once.
pub proof fn lemma_first_seen(seen: Seq<Seq<char>>, names: Seq<Seq<char>>)
    requires
        seen.no_duplicates(),
    ensures
        first_seen(seen, names).no_duplicates(),
        forall|x: Seq<char>|
            first_seen(seen, names).contains(x) <==> seen.contains(x) || names.contains(x),
    decreases names.len(),
{
    if names.len() > 0 {
        let front = names.drop_last();
        let rest = first_seen(seen, front);
        let out = first_seen(seen, names);
        lemma_first_seen(seen, front);
        assert forall|x: Seq<char>| out.contains(x) <==> seen.contains(x) || names.contains(
            x,
        ) by {
            if names.contains(x) {
                let k = choose|k: int| 0 <= k < names.len() && names[k] == x;
                if k < front.len() {
                    assert(front[k] == x);
                    assert(front.contains(x));
                    assert(rest.contains(x));
                }
            }
            if front.contains(x) {
                let k = choose|k: int| 0 <= k < front.len() && front[k] == x;
                assert(names[k] == x);
            }
            if rest.contains(x) {
                let k = choose|k: int| 0 <= k < rest.len() && rest[k] == x;
                assert(out[k] == x);
            }
            if out.contains(x) && !rest.contains(x) {
                let k = choose|k: int| 0 <= k < out.len() && out[k] == x;
                assert(k == rest.len());
                assert(names[names.len() - 1] == x);
            }
            if x == names.last() {
                assert(names[names.len() - 1] == x);
                if !rest.contains(x) {
                    assert(out[out.len() - 1] == x);
                }
            }
        }
    }
}

/// The links of a host in name order are the links that it declares.
pub proof fn lemma_host_links(host: HostView, link: Seq<char>)
    ensures
        host_links(host).contains(link) <==> declares(host, link),
{
    broadcast use vstd::seq_lib::group_to_multiset_ensures;

    let sorted = sort_by_name(host.devices);
    lemma_sort_by_name(host.devices);
    if declares(host, link) {
        let d = choose|d: int| 0 <= d < host.devices.len() && (#[trigger] host.devices[d]).link == link;
        assert(host.devices.contains(host.devices[d]));
        assert(sorted.to_multiset().count(host.devices[d]) > 0);
        assert(sorted.contains(host.devices[d]));
        let e = choose|e: int| 0 <= e < sorted.len() && sorted[e] == host.devices[d];
        assert(host_links(host)[e] == link);
    }
    if host_links(host).contains(link) {
        let e = choose|e: int| 0 <= e < host_links(host).len() && host_links(host)[e] == link;
        assert(sorted.contains(sorted[e]));
        assert(host.devices.to_multiset().count(sorted[e]) > 0);
        assert(host.devices.contains(sorted[e]));
        let d = choose|d: int| 0 <= d < host.devices.len() && host.devices[d] == sorted[e];
        assert(host.devices[d].link == link);
    }
}

/// The declared links are the links that some host declares, each once.
pub proof fn lemma_declared_links(hosts: Seq<HostView>)
    ensures
        declared_links(hosts).no_duplicates(),
        forall|x: Seq<char>|
            declared_links(hosts).contains(x) <==> exists|i: int|
                0 <= i < hosts.len() && declares(#[trigger] hosts[i], x),
    decreases hosts.len(),
{
    if hosts.len() > 0 {
        let front = hosts.drop_last();
        lemma_declared_links(front);
        lemma_first_seen(declared_links(front), host_links(hosts.last()));
        assert forall|x: Seq<char>|
            declared_links(hosts).contains(x) <==> exists|i: int|
                0 <= i < hosts.len() && declares(#[trigger] hosts[i], x) by {
            lemma_host_links(hosts.last(), x);
            if declared_links(front).contains(x) {
                let i = choose|i: int| 0 <= i < front.len() && declares(#[trigger] front[i], x);
                assert(declares(hosts[i], x));
            }
            if exists|i: int| 0 <= i < hosts.len() && declares(#[trigger] hosts[i], x) {
                let i = choose|i: int| 0 <= i < hosts.len() && declares(#[trigger] hosts[i], x);
                if i < front.len() {
                    assert(declares(front[i], x));
                }
            }
            if declares(hosts.last(), x) {
                assert(declares(hosts[hosts.len() - 1], x));
            }
        }
    }
}

/// Links are matched exactly when each of them joins two hosts, and their attachments are
/// then the two of each link, in the order of the links.
pub proof fn lemma_matched(hosts: Seq<HostView>, links: Seq<Seq<char>>)
    ensures
        matched(hosts, links) is Ok <==> forall|k: int|
            0 <= k < links.len() ==> attached_hosts(hosts, #[trigger] links[k]).len() == 2,
        matched(hosts, links) matches Ok(adjacencies) ==> {
            &&& adjacencies.len() == 2 * links.len()
            &&& forall|n: int|
                0 <= n < adjacencies.len() ==> #[trigger] adjacencies[n] == endpoint(
                    hosts,
                    links[n / 2],
                    attached_hosts(hosts, links[n / 2])[n % 2],
                    if n % 2 == 0 {
                        "src"@
                    } else {
                        "dst"@
                    },
                )
        },
        matched(hosts, links) matches Err(fault) ==> exists|k: int|
            0 <= k < links.len() && link_fault(hosts, #[trigger] links[k]) == Some(fault),
    decreases links.len(),
{
    if links.len() > 0 {
        let front = links.drop_last();
        lemma_matched(hosts, front);
        assert(forall|k: int| 0 <= k < front.len() ==> front[k] == links[k]);
        match matched(hosts, front) {
            Err(fault) => {
                let k = choose|k: int|
                    0 <= k < front.len() && link_fault(hosts, #[trigger] front[k]) == Some(fault);
                assert(link_fault(hosts, links[k]) == Some(fault));
                assert(attached_hosts(hosts, links[k]).len() != 2);
            },
            Ok(adjacencies) => {
                let last = links.len() - 1;
                if link_fault(hosts, links.last()) is Some {
                    assert(attached_hosts(hosts, links[last]).len() != 2);
                    assert(link_fault(hosts, links[last]) == Some(matched(hosts, links)->Err_0));
                } else {
                    assert forall|k: int| 0 <= k < links.len() implies attached_hosts(
                        hosts,
                        #[trigger] links[k],
                    ).len() == 2 by {
                        if k < front.len() {
                            assert(front[k] == links[k]);
                        }
                    }
                }
            },
        }
    }
}

/// The link that a fault is about.
pub open spec fn fault_link(fault: TopologyErrorView) -> Seq<char> {
    match fault {
        TopologyErrorView::NotConnected { link } => link,
        TopologyErrorView::UnderConnected { link, .. } => link,
        TopologyErrorView::OverConnected { link, .. } => link,
    }
}

/// The derivation from declared devices succeeds exactly when every link that a device
/// names joins two hosts. The graph then lists each such link once, with its two
/// attachments, and nothing else.
pub proof fn lemma_matched_graph_valid(testbed: TestbedView)
    ensures
        matched_graph(testbed) is Ok <==> forall|i: int, d: int|
            0 <= i < testbed.hosts.len() && 0 <= d < testbed.hosts[i].devices.len()
                ==> attached_hosts(testbed.hosts, (#[trigger] testbed.hosts[i].devices[d]).link).len()
                == 2,
        matched_graph(testbed) matches Ok(graph) ==> paired(graph.adjacents, graph.link)
            && consistent(graph),
{
    let hosts = testbed.hosts;
    let links = declared_links(hosts);
    lemma_declared_links(hosts);
    lemma_matched(hosts, links);
    if matched_graph(testbed) is Ok {
        assert forall|i: int, d: int|
            0 <= i < hosts.len() && 0 <= d < hosts[i].devices.len() implies attached_hosts(
            hosts,
            (#[trigger] hosts[i].devices[d]).link,
        ).len() == 2 by {
            let link = hosts[i].devices[d].link;
            assert(declares(hosts[i], link));
            assert(links.contains(link));
            let k = choose|k: int| 0 <= k < links.len() && links[k] == link;
            assert(attached_hosts(hosts, links[k]).len() == 2);
        }
        let graph = matched_graph(testbed)->Ok_0;
        assert forall|i: int, d: int|
            0 <= i < graph.hosts.len() && 0 <= d < graph.hosts[i].devices.len() implies attachments_of(
            graph.adjacents,
            (#[trigger] graph.hosts[i].devices[d]).link,
        ).len() == 2 by {
            let link = hosts[i].devices[d].link;
            assert(declares(hosts[i], link));
            assert(links.contains(link));
            let k = choose|k: int| 0 <= k < links.len() && links[k] == link;
            lemma_paired_attachments(graph.adjacents, links, k, link);
        }
    }
    if forall|i: int, d: int|
        0 <= i < hosts.len() && 0 <= d < hosts[i].devices.len() ==> attached_hosts(
            hosts,
            (#[trigger] hosts[i].devices[d]).link,
        ).len() == 2 {
        assert forall|k: int| 0 <= k < links.len() implies attached_hosts(
            hosts,
            #[trigger] links[k],
        ).len() == 2 by {
            assert(links.contains(links[k]));
            let i = choose|i: int| 0 <= i < hosts.len() && declares(#[trigger] hosts[i], links[k]);
            let d = choose|d: int|
                0 <= d < hosts[i].devices.len() && (#[trigger] hosts[i].devices[d]).link
                    == links[k];
            assert(attached_hosts(hosts, hosts[i].devices[d].link).len() == 2);
        }
    }
}

/// A derivation that fails reports a link that a device names and that does not join two
/// hosts: with the one host that declares it, or with all of the three or more.
pub proof fn lemma_matched_graph_fault(testbed: TestbedView)
    requires
        matched_graph(testbed) is Err,
    ensures
        ({
            let fault = matched_graph(testbed)->Err_0;
            let found = attached_hosts(testbed.hosts, fault_link(fault));
            &&& exists|i: int|
                0 <= i < testbed.hosts.len() && declares(
                    #[trigger] testbed.hosts[i],
                    fault_link(fault),
                )
            &&& link_fault(testbed.hosts, fault_link(fault)) == Some(fault)
            &&& fault is UnderConnected <==> found.len() == 1
            &&& fault is OverConnected <==> found.len() >= 3
        }),
{
    let hosts = testbed.hosts;
    let links = declared_links(hosts);
    lemma_declared_links(hosts);
    lemma_matched(hosts, links);
    let fault = matched_graph(testbed)->Err_0;
    let k = choose|k: int|
        0 <= k < links.len() && link_fault(hosts, #[trigger] links[k]) == Some(fault);
    assert(links.contains(links[k]));
    assert(fault_link(fault) == links[k]);
    lemma_attached_hosts(hosts, links[k]);
    let i = choose|i: int| 0 <= i < hosts.len() && declares(#[trigger] hosts[i], links[k]);
    assert(attached_hosts(hosts, links[k]).contains(i));
}

/// In a graph derived from declared devices of hosts of different names, a host has exactly
/// one attachment to each link that one of its devices names.
pub proof fn lemma_matched_host_attachments(testbed: TestbedView, i: int, d: int)
    requires
        hostnames(testbed.hosts).no_duplicates(),
        matched_graph(testbed) is Ok,
        0 <= i < testbed.hosts.len(),
        0 <= d < testbed.hosts[i].devices.len(),
    ensures
        attachments_between(
            matched_graph(testbed)->Ok_0.adjacents,
            testbed.hosts[i].hostname,
            testbed.hosts[i].devices[d].link,
        ).len() == 1,
{
    let hosts = testbed.hosts;
    let links = declared_links(hosts);
    let graph = matched_graph(testbed)->Ok_0;
    let link = hosts[i].devices[d].link;
    let names = hostnames(hosts);
    lemma_declared_links(hosts);
    lemma_matched(hosts, links);
    lemma_matched_graph_valid(testbed);
    assert(declares(hosts[i], link));
    assert(links.contains(link));
    let k = choose|k: int| 0 <= k < links.len() && links[k] == link;
    lemma_paired_attachments(graph.adjacents, links, k, hosts[i].hostname);
    lemma_attached_hosts(hosts, link);
    let found = attached_hosts(hosts, link);
    assert(found.contains(i));
    assert(graph.adjacents[2 * k].host1_id == names[found[0]]);
    assert(graph.adjacents[2 * k + 1].host1_id == names[found[1]]);
    assert(names[i] == hosts[i].hostname);
}

/// One faulty link among links that each join two hosts is the link that is reported, with
/// the fault of its kind.
pub proof fn lemma_forced_fault(testbed: TestbedView, link: Seq<char>)
    requires
        exists|i: int| 0 <= i < testbed.hosts.len() && declares(#[trigger] testbed.hosts[i], link),
        attached_hosts(testbed.hosts, link).len() != 2,
        forall|i: int, d: int|
            0 <= i < testbed.hosts.len() && 0 <= d < testbed.hosts[i].devices.len() && (
            #[trigger] testbed.hosts[i].devices[d]).link != link ==> attached_hosts(
                testbed.hosts,
                testbed.hosts[i].devices[d].link,
            ).len() == 2,
    ensures
        matched_graph(testbed) is Err,
        link_fault(testbed.hosts, link) == Some(matched_graph(testbed)->Err_0),
{
    let hosts = testbed.hosts;
    lemma_matched_graph_valid(testbed);
    let i = choose|i: int| 0 <= i < hosts.len() && declares(#[trigger] hosts[i], link);
    let d = choose|d: int| 0 <= d < hosts[i].devices.len() && (#[trigger] hosts[i].devices[d]).link
        == link;
    assert(attached_hosts(hosts, hosts[i].devices[d].link).len() != 2);
    lemma_matched_graph_fault(testbed);
    let reported = fault_link(matched_graph(testbed)->Err_0);
    let j = choose|j: int| 0 <= j < hosts.len() && declares(#[trigger] hosts[j], reported);
    let e = choose|e: int| 0 <= e < hosts[j].devices.len() && (#[trigger] hosts[j].devices[e]).link
        == reported;
    assert(reported == link);
}

} // verus!
