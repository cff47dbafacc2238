//! The handshake view of one peer relationship, derived entirely from the
//! store: a peer moves from `Unknown` through `Introduced` (a record exists
//! but no claim either way) and `PartiallyKnown` (a one-sided claim) to
//! `Converged` (mutual claims). Transitions happen only through the merge
//! engine and the local node's own re-issued record; `Converged` is not
//! terminal, since any later topology change re-enters `PartiallyKnown`
//! until both sides' views agree again.
use vstd::prelude::*;

use crate::crypt::CryptDe;
use crate::keys::PublicKey;
use crate::produce::gossip_form;
use crate::record::{Gossip, RecView};
use crate::store::{
    is_full_neighbor, is_half_neighbor, re_signed_root, TopologyStore,
};

verus! {

/// Where the bootstrap exchange with one peer currently stands.
#[derive(PartialEq, Eq, Structural, Clone, Copy, Debug)]
pub enum HandshakeState {
    Unknown,
    Introduced,
    PartiallyKnown,
    Converged,
}

/// The state of the relationship between the local node and `k`, as the
/// given store shows it.
pub open spec fn spec_peer_state(
    s: Map<Seq<u8>, RecView>,
    rootk: Seq<u8>,
    k: Seq<u8>,
) -> HandshakeState {
    if is_full_neighbor(s, rootk, k) {
        HandshakeState::Converged
    } else if is_half_neighbor(s, rootk, k) || is_half_neighbor(s, k, rootk) {
        HandshakeState::PartiallyKnown
    } else if s.contains_key(k) {
        HandshakeState::Introduced
    } else {
        HandshakeState::Unknown
    }
}

impl TopologyStore {
    /// Classifies the local node's relationship with `k`.
    pub fn peer_state(&self, k: &PublicKey) -> (r: HandshakeState)
        requires
            self.wf(),
        ensures
            r == spec_peer_state(self@, self.root_key@, k@),
    {
        if self.full_neighbor(&self.root_key, k) {
            HandshakeState::Converged
        } else if self.half_neighbor(&self.root_key, k) || self.half_neighbor(k, &self.root_key) {
            HandshakeState::PartiallyKnown
        } else if self.contains_node(k) {
            HandshakeState::Introduced
        } else {
            HandshakeState::Unknown
        }
    }

    /// Introduces the local node to a prospective neighbor: claims the target
    /// in the local node's own record (re-issued and re-signed) unless it is
    /// already claimed, then builds the Debut to send — a single-record
    /// gossip carrying only the local node's own record, address disclosed so
    /// the target can reply.
    pub fn start_debut<C: CryptDe>(&mut self, target: &PublicKey, c: &C) -> (out: Gossip)
        requires
            old(self).wf(),
            c.spec_key() == old(self).root_key@,
            target@ != old(self).root_key@,
            old(self).root_view().inner.version < 0xffff_ffffu32,
        ensures
            final(self).wf(),
            final(self).root_key@ == old(self).root_key@,
            old(self).root_view().inner.neighbors.contains(target@) ==> final(self)@ == old(
                self)@,
            !old(self).root_view().inner.neighbors.contains(target@) ==> final(self)@ == old(
                self)@.insert(old(self).root_key@, re_signed_root(*c, old(self).root_view(), old(
                self).root_view().inner.neighbors.push(target@))),
            final(self).root_view().inner.neighbors.contains(target@),
            out@ == seq![gossip_form(final(self).root_view(), true)],
    {
        let already = {
            let root = self.root();
            crate::record::lists_key(&root.inner.neighbors, target)
        };
        if !already {
            let mut to_add: Vec<PublicKey> = Vec::new();
            to_add.push(target.clone());
            self.extend_root_neighbors(&to_add, c);
            proof {
                assert(old(self).root_view().inner.neighbors + to_add@.map_values(
                    |x: PublicKey| x@) =~= old(self).root_view().inner.neighbors.push(target@));
                assert(self.root_view().inner.neighbors[old(
                    self).root_view().inner.neighbors.len() as int] == target@);
            }
        }
        self.produce_debut()
    }
}

} // verus!
