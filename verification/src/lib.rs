//! Matchmaking data model: players, lobbies, and the skill statistics
//! computed over a lobby's membership.
//!
//! A [`Lobby`] owns an ordered sequence of [`Player`]s and offers two
//! aggregate statistics over their ranks: an exact mean (as a
//! numerator/denominator pair) and a median (which sorts the lobby as a
//! side effect). A [`RankProvider`] is the capability through which an
//! external ranking source supplies a player's current rank.

use vstd::prelude::*;

verus! {

/// A player in the matchmaking system.
#[derive(Debug, Clone, Copy, PartialEq, Eq, Structural)]
pub struct Player {
    /// The unique ID of this player.
    pub id: u128,
    /// The rank of this player.
    pub rank: u32,
}

/// A lobby in the matchmaking system: an ordered group of players whose
/// aggregate skill statistics feed matchmaking decisions.
#[derive(Debug)]
pub struct Lobby {
    /// The players in this lobby, in the order they were supplied.
    pub players: Vec<Player>,
}

/// The sum of the ranks of the players of `s`.
pub open spec fn rank_sum(s: Seq<Player>) -> int
    decreases s.len(),
{
    if s.len() == 0 {
        0
    } else {
        rank_sum(s.drop_last()) + s.last().rank
    }
}

/// The mean rank of a player sequence, as an exact sum/count pair.
///
/// Mirrors the aggregation rule of [`Lobby::mean_rank`]: when the rank sum
/// is zero — for an empty sequence, but equally for a non-empty sequence
/// whose players all have rank zero — no mean is reported.
pub open spec fn mean_of(s: Seq<Player>) -> Option<(u128, usize)> {
    if rank_sum(s) == 0 {
        None
    } else {
        Some((rank_sum(s) as u128, s.len() as usize))
    }
}

/// `s` is in ascending rank order.
pub open spec fn sorted_by_rank(s: Seq<Player>) -> bool {
    forall|i: int, j: int| 0 <= i < j < s.len() ==> s[i].rank <= s[j].rank
}

/// An ascending-rank copy of `v`: the same players (as a multiset), with
/// ranks in ascending order.
fn sort_players_by_rank(v: &Vec<Player>) -> (r: Vec<Player>)
    ensures
        r@.len() == v@.len(),
        sorted_by_rank(r@),
        r@.to_multiset() == v@.to_multiset(),
{
    let mut out: Vec<Player> = Vec::new();
    let mut i: usize = 0;
    proof {
        assert(v@.take(0) =~= out@);
    }
    while i < v.len()
        invariant
            i <= v@.len(),
            out@.len() == i,
            sorted_by_rank(out@),
            out@.to_multiset() == v@.take(i as int).to_multiset(),
        decreases v@.len() - i,
    {
        let p = v[i];
        let mut j: usize = 0;
        while j < out.len() && out[j].rank <= p.rank
            invariant
                j <= out@.len(),
                forall|k: int| 0 <= k < j ==> out@[k].rank <= p.rank,
            decreases out@.len() - j,
        {
            j = j + 1;
        }
        let ghost pre = out@;
        out.insert(j, p);
        proof {
            broadcast use vstd::seq_lib::group_to_multiset_ensures;
            pre.insert_ensures(j as int, p);
            assert forall|a: int, b: int| 0 <= a < b < out@.len() implies
                out@[a].rank <= out@[b].rank by {
                if b < j {
                    assert(out@[a] == pre[a] && out@[b] == pre[b]);
                } else if a > j {
                    assert(out@[a] == pre[a - 1] && out@[b] == pre[b - 1]);
                } else if a == j {
                    assert(out@[a] == p && out@[b] == pre[b - 1]);
                    assert(pre[j as int].rank > p.rank);
                } else if b == j {
                    assert(out@[a] == pre[a] && out@[b] == p);
                } else {
                    assert(out@[a] == pre[a] && out@[b] == pre[b - 1]);
                    assert(pre[j as int].rank > p.rank);
                }
            }
            assert(v@.take(i + 1).drop_last() =~= v@.take(i as int));
            assert(v@.take(i + 1) =~= v@.take(i as int).push(p));
        }
        i = i + 1;
    }
    proof {
        assert(v@.take(v@.len() as int) =~= v@);
    }
    out
}

/// The ranks of the players of `s`, in order, as mathematical integers.
pub open spec fn rank_seq(s: Seq<Player>) -> Seq<int> {
    s.map(|i: int, p: Player| p.rank as int)
}

/// The median rank of a player sequence: the element at index
/// floor(count / 2) of its ascending rank sequence, absent when the
/// sequence is empty. For an odd count this is the true middle; for an
/// even count it is the upper of the two middle elements.
pub open spec fn median_of(s: Seq<Player>) -> Option<u32> {
    if s.len() == 0 {
        None
    } else {
        Some(rank_seq(s).sort()[s.len() as int / 2] as u32)
    }
}

/// Removing a player commutes with taking the rank sequence.
proof fn lemma_rank_seq_remove(s: Seq<Player>, j: int)
    requires
        0 <= j < s.len(),
    ensures
        rank_seq(s.remove(j)) =~= rank_seq(s).remove(j),
{
    s.remove_ensures(j);
    rank_seq(s).remove_ensures(j);
}

/// Two player sequences holding the same players hold the same ranks.
proof fn lemma_rank_seq_to_multiset(s1: Seq<Player>, s2: Seq<Player>)
    requires
        s1.to_multiset() == s2.to_multiset(),
    ensures
        rank_seq(s1).to_multiset() == rank_seq(s2).to_multiset(),
    decreases s1.len(),
{
    broadcast use vstd::seq_lib::group_to_multiset_ensures;
    broadcast use vstd::multiset::group_multiset_axioms;

    assert(s1.to_multiset().len() == s1.len());
    assert(s2.to_multiset().len() == s2.len());
    if s1.len() == 0 {
        assert(s2.len() == 0);
        assert(rank_seq(s1) =~= rank_seq(s2));
    } else {
        let p = s1[0];
        assert(s1.contains(p));
        assert(s2.to_multiset().count(p) > 0);
        assert(s2.contains(p));
        let j = choose|j: int| 0 <= j < s2.len() && s2[j] == p;
        assert(s1.remove(0).to_multiset() == s1.to_multiset().remove(p));
        assert(s2.remove(j).to_multiset() == s2.to_multiset().remove(p));
        lemma_rank_seq_to_multiset(s1.remove(0), s2.remove(j));
        lemma_rank_seq_remove(s1, 0);
        lemma_rank_seq_remove(s2, j);
        let x = p.rank as int;
        let m1 = rank_seq(s1).to_multiset();
        let m2 = rank_seq(s2).to_multiset();
        assert(rank_seq(s1)[0] == x);
        assert(rank_seq(s2)[j] == x);
        assert(rank_seq(s1).contains(x));
        assert(rank_seq(s2).contains(x));
        assert(rank_seq(s1).remove(0).to_multiset() == m1.remove(x));
        assert(rank_seq(s2).remove(j).to_multiset() == m2.remove(x));
        assert(m1.remove(x) == m2.remove(x));
        assert(m1 =~= m1.remove(x).insert(x));
        assert(m2 =~= m2.remove(x).insert(x));
    }
}

/// Any ascending-rank rearrangement of `orig` carries exactly the sorted
/// rank sequence of `orig`: the ascending order of a lobby's ranks is
/// determined by the lobby's players alone.
pub proof fn lemma_sorted_ranks_unique(cur: Seq<Player>, orig: Seq<Player>)
    requires
        sorted_by_rank(cur),
        cur.to_multiset() == orig.to_multiset(),
    ensures
        rank_seq(cur) == rank_seq(orig).sort(),
{
    broadcast use vstd::seq_lib::group_to_multiset_ensures;

    let leq = |x: int, y: int| x <= y;
    lemma_rank_seq_to_multiset(cur, orig);
    rank_seq(orig).lemma_sort_ensures();
    assert(vstd::relations::sorted_by(rank_seq(cur), leq)) by {
        assert forall|a: int, b: int|
            0 <= a < b < rank_seq(cur).len() implies #[trigger] leq(
            rank_seq(cur)[a],
            rank_seq(cur)[b],
        ) by {
            assert(cur[a].rank <= cur[b].rank);
        }
    }
    assert(vstd::relations::total_ordering(leq)) by {
        assert(vstd::relations::reflexive(leq));
        assert(vstd::relations::antisymmetric(leq));
        assert(vstd::relations::transitive(leq));
        assert(vstd::relations::strongly_connected(leq));
    }
    vstd::seq_lib::lemma_sorted_unique(rank_seq(cur), rank_seq(orig).sort(), leq);
    assert(rank_seq(cur) =~= rank_seq(orig).sort());
}

/// The rank sum is bounded below by zero and above by the count of
/// players times the largest rank a player can hold.
proof fn lemma_rank_sum_bounds(s: Seq<Player>)
    ensures
        0 <= rank_sum(s) <= s.len() * (u32::MAX as int),
    decreases s.len(),
{
    if s.len() != 0 {
        lemma_rank_sum_bounds(s.drop_last());
    }
}

impl Lobby {
    /// Create a new lobby with the given players, keeping their order.
    pub fn new(players: Vec<Player>) -> (lobby: Lobby)
        ensures
            lobby.players@ == players@,
    {
        Lobby { players }
    }

    /// Get the mean rank of the players in this lobby, as the exact pair
    /// of rank sum and player count; the mean itself is their quotient.
    ///
    /// Reports no value whenever the rank sum is zero, which conflates an
    /// empty lobby with a non-empty lobby of all-zero ranks; that
    /// conflation is part of the aggregation contract, not an accident.
    /// Never divides by zero and never changes the lobby.
    pub fn mean_rank(&self) -> (r: Option<(u128, usize)>)
        ensures
            r == mean_of(self.players@),
    {
        let ghost s = self.players@;
        let mut sum: u128 = 0;
        let mut i: usize = 0;
        proof {
            lemma_rank_sum_bounds(s);
        }
        while i < self.players.len()
            invariant
                i <= s.len(),
                s == self.players@,
                sum == rank_sum(s.take(i as int)),
                sum <= i * (u32::MAX as int),
            decreases s.len() - i,
        {
            proof {
                assert(s.take(i + 1).drop_last() =~= s.take(i as int));
                assert(s.take(i + 1).last() == s[i as int]);
                lemma_rank_sum_bounds(s.take(i as int));
            }
            sum = sum + self.players[i].rank as u128;
            i = i + 1;
        }
        proof {
            assert(s.take(s.len() as int) =~= s);
        }
        if sum == 0 {
            None
        } else {
            Some((sum, self.players.len()))
        }
    }

    /// Get the median rank of the players in this lobby, reordering the
    /// players into ascending rank order as an observable side effect.
    ///
    /// After the call the lobby holds the same players, sorted ascending
    /// by rank, and the reported median is the rank at index
    /// floor(count / 2) of that order — absent only for an empty lobby.
    /// The result is determined by the lobby's players alone.
    pub fn median_rank(&mut self) -> (r: Option<u32>)
        ensures
            final(self).players@.to_multiset() == old(self).players@.to_multiset(),
            final(self).players@.len() == old(self).players@.len(),
            sorted_by_rank(final(self).players@),
            r == median_of(old(self).players@),
            r == (if final(self).players@.len() == 0 {
                None::<u32>
            } else {
                Some(final(self).players@[final(self).players@.len() as int / 2].rank)
            }),
    {
        let sorted = sort_players_by_rank(&self.players);
        self.players = sorted;
        proof {
            lemma_sorted_ranks_unique(self.players@, old(self).players@);
        }
        if self.players.len() == 0 {
            None
        } else {
            let m = self.players.len() / 2;
            let r = self.players[m].rank;
            proof {
                assert(rank_seq(self.players@)[m as int] == r as int);
            }
            Some(r)
        }
    }
}

/// Law: `mean_rank` is idempotent. `mean_rank` takes the lobby by shared
/// reference, so it cannot alter the players; and any two results that
/// meet its contract on the same, unmutated lobby are the same.
pub proof fn lemma_mean_rank_idempotent(
    lobby: Lobby,
    r1: Option<(u128, usize)>,
    r2: Option<(u128, usize)>,
)
    requires
        r1 == mean_of(lobby.players@),
        r2 == mean_of(lobby.players@),
    ensures
        r1 == r2,
{
}

/// The capability through which an external ranking source supplies a
/// player's current rank.
///
/// Implementations resolve the rank however they like — a remote
/// service, a data store, a fixed test value — and may suspend the
/// calling context while they do; the core relies only on the call
/// completing with a rank. The call consumes the player and yields a
/// bare rank, not a fresh player: callers rebuild an updated player if
/// they need one (see [`refresh_rank`]). Implementations must tolerate
/// concurrent invocation from unrelated call sites.
pub trait RankProvider {
    /// Get the rank of this player.
    fn get_rank(&self, player: Player) -> u32;
}

/// Replace a player's rank with the current value supplied by
/// `provider`, keeping the player's identity. Works with any
/// [`RankProvider`] implementation; nothing is assumed of the rank the
/// provider hands back.
pub fn refresh_rank<P: RankProvider>(provider: &P, player: Player) -> (updated: Player)
    ensures
        updated.id == player.id,
{
    let id = player.id;
    let rank = provider.get_rank(player);
    Player { id, rank }
}

/// The ASCII decimal digits of `n`, most significant first, without a
/// sign and without leading zeros (48 is ASCII `0`).
pub open spec fn decimal_digits(n: nat) -> Seq<u8>
    decreases n,
{
    if n < 10 {
        seq![(n + 48) as u8]
    } else {
        decimal_digits(n / 10).push((n % 10 + 48) as u8)
    }
}

/// The decimal rendering of a rank, as the admission response reports a
/// submitted player's rank back to the caller.
pub fn rank_decimal(rank: u32) -> (digits: Vec<u8>)
    ensures
        digits@ == decimal_digits(rank as nat),
    decreases rank,
{
    if rank < 10 {
        let mut v: Vec<u8> = Vec::new();
        v.push(rank as u8 + 48);
        proof {
            assert(v@ =~= decimal_digits(rank as nat));
        }
        v
    } else {
        let mut v = rank_decimal(rank / 10);
        v.push((rank % 10) as u8 + 48);
        v
    }
}

} // verus!
