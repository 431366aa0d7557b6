//! Halo (ghost-cell) exchange: the parallel boundary, as plain index lists.

use vstd::prelude::*;

verus! {

/// One neighbor-rank link in a [`HaloPlan`].
///
/// `send_cells[k]` on this rank corresponds to `recv_cells[k]` on the neighbor's
/// matching link, and the other way round, so both ends agree on cell ordering. Both
/// lists have equal length.
pub struct HaloLink {
    /// Rank to exchange with.
    pub rank: i32,
    /// Local interior cells to pack and send, in order.
    pub send_cells: Vec<usize>,
    /// Local ghost cells to unpack received data into, in order.
    pub recv_cells: Vec<usize>,
}

/// What a [`HaloLink`] says.
pub ghost struct Link {
    /// Rank to exchange with.
    pub rank: int,
    /// Cells to send, in order.
    pub send: Seq<int>,
    /// Cells to receive into, in order.
    pub recv: Seq<int>,
}

impl View for HaloLink {
    type V = Link;

    open spec fn view(&self) -> Link {
        Link {
            rank: self.rank as int,
            send: self.send_cells@.map_values(|c: usize| c as int),
            recv: self.recv_cells@.map_values(|c: usize| c as int),
        }
    }
}

/// The full halo communication pattern for one rank's subdomain. A serial run has
/// an empty plan, so that an exchange is a no-op.
pub struct HaloPlan {
    /// The links, in the order in which they are served.
    pub links: Vec<HaloLink>,
}

impl View for HaloPlan {
    type V = Seq<Link>;

    open spec fn view(&self) -> Seq<Link> {
        self.links@.map_values(|link: HaloLink| link@)
    }
}

impl HaloPlan {
    /// A plan without links.
    pub fn empty() -> (r: Self)
        ensures
            r.links@.len() == 0,
    {
        HaloPlan { links: Vec::new() }
    }

    /// `true` when there is nothing to exchange (serial run).
    pub fn is_serial(&self) -> (r: bool)
        ensures
            r == (self.links@.len() == 0),
    {
        self.links.len() == 0
    }
}

impl Default for HaloPlan {
    fn default() -> (r: Self)
        ensures
            r.links@.len() == 0,
    {
        HaloPlan::empty()
    }
}

} // verus!
