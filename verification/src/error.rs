//! The ways in which a topology can be refused.

use crate::text::{join_names, joined};
use vstd::prelude::*;
use vstd::string::*;

verus! {

/// A link that does not join exactly two hosts.
#[derive(Debug, PartialEq, Eq)]
pub enum TopologyError {
    /// No host is attached to the link.
    NotConnected { link: String },
    /// A single host is attached to the link.
    UnderConnected { link: String, host: String },
    /// More hosts are attached to the link than a link can join.
    OverConnected { link: String, hosts: Vec<String> },
}

/// A `TopologyError` as plain values.
pub enum TopologyErrorView {
    NotConnected { link: Seq<char> },
    UnderConnected { link: Seq<char>, host: Seq<char> },
    OverConnected { link: Seq<char>, hosts: Seq<Seq<char>> },
}

impl View for TopologyError {
    type V = TopologyErrorView;

    open spec fn view(&self) -> TopologyErrorView {
        match self {
            TopologyError::NotConnected { link } => TopologyErrorView::NotConnected { link: link@ },
            TopologyError::UnderConnected { link, host } => TopologyErrorView::UnderConnected {
                link: link@,
                host: host@,
            },
            TopologyError::OverConnected { link, hosts } => TopologyErrorView::OverConnected {
                link: link@,
                hosts: hosts.deep_view(),
            },
        }
    }
}

/// The moment at which a fault is found.
#[derive(Debug, Clone, Copy, PartialEq, Eq)]
pub enum Stage {
    /// While the link graph is derived from declared devices.
    Derive,
    /// While the shell script is rendered.
    Render,
}

/// The line that reports a fault.
pub open spec fn message_text(error: TopologyErrorView) -> Seq<char> {
    match error {
        TopologyErrorView::NotConnected { link } => "ERROR: link "@ + link
            + " is not part of any host"@,
        TopologyErrorView::UnderConnected { link, host } => "ERROR: link "@ + link
            + " is only connected to host "@ + host,
        TopologyErrorView::OverConnected { link, hosts } => "ERROR: link "@ + link
            + " is connected to too many hosts "@ + joined(hosts, ", "@),
    }
}

/// The exit status that reports a fault found at `stage`.
pub open spec fn exit_status(error: TopologyErrorView, stage: Stage) -> int {
    match stage {
        Stage::Render => 3,
        Stage::Derive => match error {
            TopologyErrorView::NotConnected { .. } => 3,
            TopologyErrorView::UnderConnected { .. } => 4,
            TopologyErrorView::OverConnected { .. } => 5,
        },
    }
}

impl TopologyError {
    /// The line that reports this fault: the link, and the hosts found on it.
    pub fn message(&self) -> (r: String)
        ensures
            r@ == message_text(self@),
    {
        let mut out = "ERROR: link ".to_owned();
        match self {
            TopologyError::NotConnected { link } => {
                out.append(link.as_str());
                out.append(" is not part of any host");
            },
            TopologyError::UnderConnected { link, host } => {
                out.append(link.as_str());
                out.append(" is only connected to host ");
                out.append(host.as_str());
            },
            TopologyError::OverConnected { link, hosts } => {
                out.append(link.as_str());
                out.append(" is connected to too many hosts ");
                let names = join_names(hosts, ", ");
                out.append(names.as_str());
            },
        }
        out
    }

    /// The exit status of a run that ends on this fault: every fault found while rendering
    /// ends it alike, one found while deriving by its kind.
    pub fn exit_code(&self, stage: Stage) -> (r: i32)
        ensures
            r == exit_status(self@, stage),
    {
        match stage {
            Stage::Render => 3,
            Stage::Derive => match self {
                TopologyError::NotConnected { .. } => 3,
                TopologyError::UnderConnected { .. } => 4,
                TopologyError::OverConnected { .. } => 5,
            },
        }
    }
}

} // verus!
