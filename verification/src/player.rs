use vstd::prelude::*;

verus! {

/// One of the exactly two player identities.
#[derive(PartialEq, Eq, Structural, Clone, Copy, Debug)]
pub enum Player {
    X,
    O,
}

impl Player {
    /// The other player, as a mathematical value.
    pub open spec fn next_spec(self) -> Player {
        match self {
            Player::O => Player::X,
            Player::X => Player::O,
        }
    }

    /// The constant starting player.
    pub fn first() -> (r: Player)
        ensures
            r == Player::X,
    {
        Player::X
    }

    /// The other player: a total, side-effect-free swap.
    pub fn next(&self) -> (r: Player)
        ensures
            r == self.next_spec(),
    {
        match self {
            Player::O => Player::X,
            Player::X => Player::O,
        }
    }
}

/// Alternation is an involution: swapping the player twice returns the
/// original identity, for both players.
pub proof fn lemma_next_involution(p: Player)
    ensures
        p.next_spec().next_spec() == p,
{
}

} // verus!
