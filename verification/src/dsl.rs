//! The testbed description: hosts, links and attachments as nested blocks of text.

use crate::model::{Adjacency, AdjacencyView, DSLConfig, DSLConfigView, Host, HostView, Link};
use crate::text::{decimal, push_decimal};
use vstd::prelude::*;
use vstd::string::*;

verus! {

/// The line that declares port `port` of a host.
pub open spec fn port_line(port: nat) -> Seq<char> {
    "        port { id = \"p"@ + decimal(port) + "\" }\n"@
}

/// The lines of the ports `1` to `count`.
pub open spec fn port_lines(count: nat) -> Seq<char>
    decreases count,
{
    if count == 0 {
        Seq::empty()
    } else {
        port_lines((count - 1) as nat) + port_line(count)
    }
}

/// The number of ports that a host is given: its spare ports, its links, and one in reserve.
pub open spec fn port_count(host: HostView) -> nat {
    host.free_ports + host.used_ports + 1
}

/// The block that declares a host.
pub open spec fn host_block(host: HostView) -> Seq<char> {
    "    host {\n        id = \""@ + host.hostname + "\"\n        location = \""@ + host.location
        + "\"\n        imageId = \""@ + host.image + "\"\n        flavorId = \""@ + host.flavor
        + "\"\n"@ + port_lines(port_count(host)) + "    }\n"@
}

/// The block that declares a link, with its two sides.
pub open spec fn link_block(name: Seq<char>) -> Seq<char> {
    "    link {\n        id = \""@ + name
        + "\"\n        port { id = \"src\"}\n        port { id = \"dst\"}\n    }\n"@
}

/// The line that attaches a port of a host to a side of a link. Ports are written one above
/// the stored index.
pub open spec fn adjacency_line(adjacency: AdjacencyView) -> Seq<char> {
    "    adjacency "@ + adjacency.host1_id + ".p"@ + decimal(adjacency.host1_port + 1) + ", "@
        + adjacency.link_name + "."@ + adjacency.link_side + "\n"@
}

/// The blocks of the hosts, in registry order.
pub open spec fn host_blocks(hosts: Seq<HostView>) -> Seq<char>
    decreases hosts.len(),
{
    if hosts.len() == 0 {
        Seq::empty()
    } else {
        host_blocks(hosts.drop_last()) + host_block(hosts.last())
    }
}

/// The blocks of the links, in the order of the list.
pub open spec fn link_blocks(links: Seq<Seq<char>>) -> Seq<char>
    decreases links.len(),
{
    if links.len() == 0 {
        Seq::empty()
    } else {
        link_blocks(links.drop_last()) + link_block(links.last())
    }
}

/// The lines of the attachments, in derivation order.
pub open spec fn adjacency_lines(adjacencies: Seq<AdjacencyView>) -> Seq<char>
    decreases adjacencies.len(),
{
    if adjacencies.len() == 0 {
        Seq::empty()
    } else {
        adjacency_lines(adjacencies.drop_last()) + adjacency_line(adjacencies.last())
    }
}

/// The description of a testbed: its name and description, then one block for each host, one
/// for each link and one line for each attachment.
pub open spec fn dsl_text(graph: DSLConfigView) -> Seq<char> {
    graph.id + " {\n    id = \""@ + graph.id + "\"\n    description = \""@ + graph.description
        + "\"\n"@ + host_blocks(graph.hosts) + link_blocks(graph.link) + adjacency_lines(
        graph.adjacents,
    ) + "}\n"@
}

/// The lines of the ports `1` to `count`.
fn port_list(count: u128) -> (r: String)
    requires
        count < u128::MAX,
    ensures
        r@ == port_lines(count as nat),
{
    let mut out = String::new();
    let mut port: u128 = 1;
    while port <= count
        invariant
            1 <= port <= count + 1,
            count < u128::MAX,
            out@ == port_lines((port - 1) as nat),
        decreases count + 1 - port,
    {
        let mut line = "        port { id = \"p".to_owned();
        push_decimal(&mut line, port);
        line.append("\" }\n");
        out.append(line.as_str());
        port += 1;
    }
    out
}

impl Link {
    /// The block that declares this link.
    pub fn serialize(&self) -> (r: String)
        ensures
            r@ == link_block(self@),
    {
        let mut out = "    link {\n        id = \"".to_owned();
        out.append(self.id.as_str());
        out.append("\"\n        port { id = \"src\"}\n        port { id = \"dst\"}\n    }\n");
        out
    }
}

impl Host {
    /// The block that declares this host, with one port more than its spare ports and its
    /// links need.
    pub fn serialize(&self) -> (r: String)
        ensures
            r@ == host_block(self@),
    {
        let mut out = "    host {\n        id = \"".to_owned();
        out.append(self.hostname.as_str());
        out.append("\"\n        location = \"");
        out.append(self.location.as_str());
        out.append("\"\n        imageId = \"");
        out.append(self.image.as_str());
        out.append("\"\n        flavorId = \"");
        out.append(self.flavor.as_str());
        out.append("\"\n");
        let ports = port_list(self.free_ports as u128 + self.used_ports as u128 + 1);
        out.append(ports.as_str());
        out.append("    }\n");
        out
    }
}

impl Adjacency {
    /// The line that declares this attachment.
    pub fn serialize(&self) -> (r: String)
        ensures
            r@ == adjacency_line(self@),
    {
        let mut out = "    adjacency ".to_owned();
        out.append(self.host1_id.as_str());
        out.append(".p");
        push_decimal(&mut out, self.host1_port as u128 + 1);
        out.append(", ");
        out.append(self.link_name.as_str());
        out.append(".");
        out.append(self.link_side.as_str());
        out.append("\n");
        out
    }
}

impl DSLConfig {
    /// The description of the testbed: all hosts in registry order, then all links, then all
    /// attachments in derivation order.
    pub fn serialize(&self) -> (r: String)
        ensures
            r@ == dsl_text(self@),
    {
        let mut hosts = String::new();
        let mut i: usize = 0;
        assert(self@.hosts.take(0) =~= Seq::<HostView>::empty());
        while i < self.hosts.len()
            invariant
                i <= self.hosts.len(),
                hosts@ == host_blocks(self@.hosts.take(i as int)),
            decreases self.hosts.len() - i,
        {
            assert(self@.hosts.take(i + 1).drop_last() =~= self@.hosts.take(i as int));
            hosts.append(self.hosts[i].serialize().as_str());
            i += 1;
        }
        assert(self@.hosts.take(self.hosts.len() as int) =~= self@.hosts);
        let mut links = String::new();
        let mut k: usize = 0;
        assert(self@.link.take(0) =~= Seq::<Seq<char>>::empty());
        while k < self.link.len()
            invariant
                k <= self.link.len(),
                links@ == link_blocks(self@.link.take(k as int)),
            decreases self.link.len() - k,
        {
            assert(self@.link.take(k + 1).drop_last() =~= self@.link.take(k as int));
            links.append(self.link[k].serialize().as_str());
            k += 1;
        }
        assert(self@.link.take(self.link.len() as int) =~= self@.link);
        let mut lines = String::new();
        let mut n: usize = 0;
        assert(self@.adjacents.take(0) =~= Seq::<AdjacencyView>::empty());
        while n < self.adjacents.len()
            invariant
                n <= self.adjacents.len(),
                lines@ == adjacency_lines(self@.adjacents.take(n as int)),
            decreases self.adjacents.len() - n,
        {
            assert(self@.adjacents.take(n + 1).drop_last() =~= self@.adjacents.take(n as int));
            lines.append(self.adjacents[n].serialize().as_str());
            n += 1;
        }
        assert(self@.adjacents.take(self.adjacents.len() as int) =~= self@.adjacents);
        let mut out = self.id.clone();
        out.append(" {\n    id = \"");
        out.append(self.id.as_str());
        out.append("\"\n    description = \"");
        out.append(self.description.as_str());
        out.append("\"\n");
        out.append(hosts.as_str());
        out.append(links.as_str());
        out.append(lines.as_str());
        out.append("}\n");
        out
    }
}

/// The description holds one block for each host, one block for each link and one line for
/// each attachment, each kind in the order of its list and with nothing in between.
pub proof fn lemma_description_parts(graph: DSLConfigView)
    ensures
        host_blocks(graph.hosts) == Seq::new(
            graph.hosts.len(),
            |i: int| host_block(graph.hosts[i]),
        ).flatten(),
        link_blocks(graph.link) == Seq::new(
            graph.link.len(),
            |k: int| link_block(graph.link[k]),
        ).flatten(),
        adjacency_lines(graph.adjacents) == Seq::new(
            graph.adjacents.len(),
            |n: int| adjacency_line(graph.adjacents[n]),
        ).flatten(),
{
    lemma_host_blocks(graph.hosts);
    lemma_link_blocks(graph.link);
    lemma_adjacency_lines(graph.adjacents);
}

/// The blocks of the hosts are the block of each host, one after the other.
proof fn lemma_host_blocks(hosts: Seq<HostView>)
    ensures
        host_blocks(hosts) == Seq::new(hosts.len(), |i: int| host_block(hosts[i])).flatten(),
    decreases hosts.len(),
{
    let blocks = Seq::new(hosts.len(), |i: int| host_block(hosts[i]));
    if hosts.len() > 0 {
        let front = hosts.drop_last();
        lemma_host_blocks(front);
        let before = Seq::new(front.len(), |i: int| host_block(front[i]));
        assert(blocks =~= before.push(host_block(hosts.last())));
        before.lemma_flatten_push(host_block(hosts.last()));
    }
}

/// The blocks of the links are the block of each link, one after the other.
proof fn lemma_link_blocks(links: Seq<Seq<char>>)
    ensures
        link_blocks(links) == Seq::new(links.len(), |k: int| link_block(links[k])).flatten(),
    decreases links.len(),
{
    let blocks = Seq::new(links.len(), |k: int| link_block(links[k]));
    if links.len() > 0 {
        let front = links.drop_last();
        lemma_link_blocks(front);
        let before = Seq::new(front.len(), |k: int| link_block(front[k]));
        assert(blocks =~= before.push(link_block(links.last())));
        before.lemma_flatten_push(link_block(links.last()));
    }
}

/// The lines of the attachments are the line of each attachment, one after the other.
proof fn lemma_adjacency_lines(adjacencies: Seq<AdjacencyView>)
    ensures
        adjacency_lines(adjacencies) == Seq::new(
            adjacencies.len(),
            |n: int| adjacency_line(adjacencies[n]),
        ).flatten(),
    decreases adjacencies.len(),
{
    let lines = Seq::new(adjacencies.len(), |n: int| adjacency_line(adjacencies[n]));
    if adjacencies.len() > 0 {
        let front = adjacencies.drop_last();
        lemma_adjacency_lines(front);
        let before = Seq::new(front.len(), |n: int| adjacency_line(front[n]));
        assert(lines =~= before.push(adjacency_line(adjacencies.last())));
        before.lemma_flatten_push(adjacency_line(adjacencies.last()));
    }
}

} // verus!
