//! What holds of a link graph: links with two attachments each.

use crate::model::{AdjacencyView, DSLConfigView};
use vstd::prelude::*;

verus! {

/// The attachments to `link`, in the order of `adjacencies`.
pub open spec fn attachments_of(adjacencies: Seq<AdjacencyView>, link: Seq<char>) -> Seq<
    AdjacencyView,
> {
    adjacencies.filter(|a: AdjacencyView| a.link_name == link)
}

/// The attachments of the host called `host` to `link`.
pub open spec fn attachments_between(
    adjacencies: Seq<AdjacencyView>,
    host: Seq<char>,
    link: Seq<char>,
) -> Seq<AdjacencyView> {
    adjacencies.filter(|a: AdjacencyView| a.host1_id == host && a.link_name == link)
}

/// Whether the attachments come in pairs, the `k`-th pair on the `k`-th of `links`, and no
/// link is listed twice.
pub open spec fn paired(adjacencies: Seq<AdjacencyView>, links: Seq<Seq<char>>) -> bool {
    &&& links.no_duplicates()
    &&& adjacencies.len() == 2 * links.len()
    &&& forall|n: int|
        0 <= n < adjacencies.len() ==> (#[trigger] adjacencies[n]).link_name == links[n / 2]
}

/// Whether every link that a device of a host names has exactly two attachments.
pub open spec fn consistent(graph: DSLConfigView) -> bool {
    forall|i: int, d: int|
        0 <= i < graph.hosts.len() && 0 <= d < graph.hosts[i].devices.len() ==> attachments_of(
            graph.adjacents,
            (#[trigger] graph.hosts[i].devices[d]).link,
        ).len() == 2
}

/// One if the attachment belongs to the host called `host`, zero if not.
pub open spec fn one_if_of(adjacency: AdjacencyView, host: Seq<char>) -> nat {
    if adjacency.host1_id == host {
        1
    } else {
        0
    }
}

/// The counts of `lemma_paired_attachments` among the attachments of the first `m` links.
proof fn lemma_paired_prefix(
    adjacencies: Seq<AdjacencyView>,
    links: Seq<Seq<char>>,
    k: int,
    host: Seq<char>,
    m: int,
)
    requires
        paired(adjacencies, links),
        0 <= k < links.len(),
        0 <= m <= links.len(),
    ensures
        attachments_of(adjacencies.take(2 * m), links[k]).len() == (if k < m {
            2int
        } else {
            0int
        }),
        attachments_between(adjacencies.take(2 * m), host, links[k]).len() == (if k < m {
            one_if_of(adjacencies[2 * k], host) + one_if_of(adjacencies[2 * k + 1], host)
        } else {
            0
        }),
    decreases m,
{
    let on_link = |a: AdjacencyView| a.link_name == links[k];
    let between = |a: AdjacencyView| a.host1_id == host && a.link_name == links[k];
    if m == 0 {
        assert(adjacencies.take(0) =~= Seq::<AdjacencyView>::empty());
        assert(adjacencies.take(0).filter(on_link).len() == 0) by {
            reveal(Seq::filter);
        }
        assert(adjacencies.take(0).filter(between).len() == 0) by {
            reveal(Seq::filter);
        }
    } else {
        let n = 2 * (m - 1);
        lemma_paired_prefix(adjacencies, links, k, host, m - 1);
        let first = adjacencies.take(n);
        let second = adjacencies.take(n + 1);
        assert(second =~= first.push(adjacencies[n]));
        assert(adjacencies.take(2 * m) =~= second.push(adjacencies[n + 1]));
        first.lemma_filter_push(adjacencies[n], on_link);
        second.lemma_filter_push(adjacencies[n + 1], on_link);
        first.lemma_filter_push(adjacencies[n], between);
        second.lemma_filter_push(adjacencies[n + 1], between);
        assert(adjacencies[n].link_name == links[m - 1]);
        assert(adjacencies[n + 1].link_name == links[m - 1]);
    }
}

/// Among paired attachments every listed link has two attachments, the two of its pair, and
/// a host has as many of them as the pair has attachments of that host.
pub proof fn lemma_paired_attachments(
    adjacencies: Seq<AdjacencyView>,
    links: Seq<Seq<char>>,
    k: int,
    host: Seq<char>,
)
    requires
        paired(adjacencies, links),
        0 <= k < links.len(),
    ensures
        attachments_of(adjacencies, links[k]).len() == 2,
        attachments_between(adjacencies, host, links[k]).len() == one_if_of(
            adjacencies[2 * k],
            host,
        ) + one_if_of(adjacencies[2 * k + 1], host),
{
    lemma_paired_prefix(adjacencies, links, k, host, links.len() as int);
    assert(adjacencies.take(2 * links.len() as int) =~= adjacencies);
}

} // verus!
