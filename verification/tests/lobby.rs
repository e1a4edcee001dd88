use models::{rank_decimal, refresh_rank, Lobby, Player, RankProvider};

#[test]
fn median() {
    let players = vec![
        Player { id: 0, rank: 10 },
        Player { id: 1, rank: 15 },
        Player { id: 2, rank: 5 },
    ];
    let mut lobby = Lobby::new(players);
    assert_eq!(lobby.median_rank(), Some(10));
}

#[test]
fn mean() {
    let players = vec![
        Player { id: 0, rank: 12 },
        Player { id: 1, rank: 15 },
        Player { id: 2, rank: 5 },
    ];
    let lobby = Lobby::new(players);
    let (sum, count) = lobby.mean_rank().unwrap();
    assert!(sum as f64 / count as f64 - 10.67 < 0.01);
}

#[test]
fn new_keeps_the_given_order() {
    let players = vec![
        Player { id: 7, rank: 30 },
        Player { id: 3, rank: 10 },
        Player { id: 9, rank: 20 },
    ];
    let lobby = Lobby::new(players.clone());
    assert_eq!(lobby.players, players);
}

#[test]
fn median_of_four_is_the_third_smallest() {
    let players = vec![
        Player { id: 0, rank: 15 },
        Player { id: 1, rank: 5 },
        Player { id: 2, rank: 12 },
        Player { id: 3, rank: 10 },
    ];
    let mut lobby = Lobby::new(players);
    assert_eq!(lobby.median_rank(), Some(12));
}

#[test]
fn median_of_a_single_player() {
    let mut lobby = Lobby::new(vec![Player { id: 4, rank: 42 }]);
    assert_eq!(lobby.median_rank(), Some(42));
}

#[test]
fn median_with_tied_ranks() {
    let players = vec![
        Player { id: 0, rank: 7 },
        Player { id: 1, rank: 3 },
        Player { id: 2, rank: 7 },
    ];
    let mut lobby = Lobby::new(players);
    assert_eq!(lobby.median_rank(), Some(7));
}

#[test]
fn empty_lobby_has_no_mean_and_no_median() {
    let mut lobby = Lobby::new(Vec::new());
    assert_eq!(lobby.mean_rank(), None);
    assert_eq!(lobby.median_rank(), None);
}

#[test]
fn all_zero_ranks_report_no_mean() {
    // Regression guard: a non-empty lobby whose players all have rank 0
    // is conflated with the empty lobby, because the rank sum is 0.
    let players = vec![
        Player { id: 0, rank: 0 },
        Player { id: 1, rank: 0 },
        Player { id: 2, rank: 0 },
    ];
    let mut lobby = Lobby::new(players);
    assert_eq!(lobby.mean_rank(), None);
    // The median does not share the conflation: the lobby is not empty.
    assert_eq!(lobby.median_rank(), Some(0));
}

#[test]
fn mean_is_idempotent_and_pure() {
    let players = vec![
        Player { id: 0, rank: 12 },
        Player { id: 1, rank: 15 },
        Player { id: 2, rank: 5 },
    ];
    let lobby = Lobby::new(players.clone());
    let first = lobby.mean_rank();
    let second = lobby.mean_rank();
    assert_eq!(first, second);
    assert_eq!(first, Some((32, 3)));
    assert_eq!(lobby.players, players);
}

#[test]
fn median_sorts_the_players_in_place() {
    let players = vec![
        Player { id: 0, rank: 10 },
        Player { id: 1, rank: 15 },
        Player { id: 2, rank: 5 },
    ];
    let mut lobby = Lobby::new(players);
    assert_eq!(lobby.median_rank(), Some(10));
    let expected = vec![
        Player { id: 2, rank: 5 },
        Player { id: 0, rank: 10 },
        Player { id: 1, rank: 15 },
    ];
    assert_eq!(lobby.players, expected);
}

struct FixedRankProvider {
    rank: u32,
}

impl RankProvider for FixedRankProvider {
    fn get_rank(&self, _player: Player) -> u32 {
        self.rank
    }
}

struct DoublingProvider;

impl RankProvider for DoublingProvider {
    fn get_rank(&self, player: Player) -> u32 {
        player.rank.saturating_mul(2)
    }
}

#[test]
fn any_provider_fits_the_capability_seam() {
    // Two unrelated test doubles stand in for a production provider with
    // no change to the core code that consumes the capability.
    let player = Player { id: 99, rank: 11 };
    let fixed = FixedRankProvider { rank: 40 };
    let refreshed = refresh_rank(&fixed, player);
    assert_eq!(refreshed.id, 99);
    assert_eq!(refreshed.rank, 40);
    let doubling = DoublingProvider;
    let refreshed = refresh_rank(&doubling, player);
    assert_eq!(refreshed.id, 99);
    assert_eq!(refreshed.rank, 22);
}

#[test]
fn rank_decimal_renders_small_ranks() {
    assert_eq!(rank_decimal(0), b"0".to_vec());
    assert_eq!(rank_decimal(7), b"7".to_vec());
    assert_eq!(rank_decimal(10), b"10".to_vec());
}

#[test]
fn rank_decimal_renders_large_ranks() {
    assert_eq!(rank_decimal(3001), b"3001".to_vec());
    assert_eq!(rank_decimal(u32::MAX), b"4294967295".to_vec());
}
