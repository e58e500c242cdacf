use netrunner_pairings::{
    all_ids_distinct, check_reports, random_order, Pairing, PairingError, Pairings, Player, Points, Result, Round,
    SingleSwissPairingAlgorithm, SwissPairingAlgorithm, SCALE,
};

fn four_players() -> Vec<Player> {
    vec![
        Player::with_id("a", "afirst", "alast", None),
        Player::with_id("b", "bfirst", "blast", None),
        Player::with_id("c", "cfirst", "clast", None),
        Player::with_id("d", "dfirst", "dlast", None),
    ]
}

#[test]
fn lib_round_counts() {
    let pairings = Pairings::new_swiss();

    assert_eq!(pairings.get_total_rounds(2), Ok(3));
    assert_eq!(pairings.get_total_rounds(9), Ok(3));

    assert_eq!(pairings.get_total_rounds(10), Ok(4));
    assert_eq!(pairings.get_total_rounds(15), Ok(4));
    assert_eq!(pairings.get_total_rounds(16), Ok(4));
    assert_eq!(pairings.get_total_rounds(24), Ok(4));
    assert_eq!(pairings.get_total_rounds(25), Ok(4));
    assert_eq!(pairings.get_total_rounds(32), Ok(4));

    assert_eq!(pairings.get_total_rounds(33), Ok(5));
    assert_eq!(pairings.get_total_rounds(56), Ok(5));

    assert_eq!(pairings.get_total_rounds(57), Ok(6));
    assert_eq!(pairings.get_total_rounds(80), Ok(6));

    assert_eq!(pairings.get_total_rounds(81), Ok(7));
    assert_eq!(pairings.get_total_rounds(128), Ok(7));
    assert_eq!(pairings.get_total_rounds(129), Ok(7));
    assert_eq!(pairings.get_total_rounds(192), Ok(7));

    assert_eq!(pairings.get_total_rounds(193), Ok(8));
    assert_eq!(pairings.get_total_rounds(256), Ok(8));

    assert_eq!(pairings.get_total_rounds(257), Ok(9));
    assert_eq!(pairings.get_total_rounds(usize::MAX), Ok(9));
}

#[test]
fn lib_top_cut() {
    let pairings = Pairings::new_swiss();

    assert_eq!(pairings.get_top_cut(2), Ok(None));
    assert_eq!(pairings.get_top_cut(9), Ok(None));
    assert_eq!(pairings.get_top_cut(10), Ok(None));
    assert_eq!(pairings.get_top_cut(15), Ok(None));

    assert_eq!(pairings.get_top_cut(16), Ok(Some(4)));
    assert_eq!(pairings.get_top_cut(24), Ok(Some(4)));

    assert_eq!(pairings.get_top_cut(25), Ok(Some(8)));
    assert_eq!(pairings.get_top_cut(32), Ok(Some(8)));
    assert_eq!(pairings.get_top_cut(33), Ok(Some(8)));
    assert_eq!(pairings.get_top_cut(56), Ok(Some(8)));
    assert_eq!(pairings.get_top_cut(57), Ok(Some(8)));
    assert_eq!(pairings.get_top_cut(80), Ok(Some(8)));
    assert_eq!(pairings.get_top_cut(81), Ok(Some(8)));
    assert_eq!(pairings.get_top_cut(128), Ok(Some(8)));

    assert_eq!(pairings.get_top_cut(129), Ok(Some(16)));
    assert_eq!(pairings.get_top_cut(192), Ok(Some(16)));
    assert_eq!(pairings.get_top_cut(193), Ok(Some(16)));
    assert_eq!(pairings.get_top_cut(256), Ok(Some(16)));
    assert_eq!(pairings.get_top_cut(257), Ok(Some(16)));
    assert_eq!(pairings.get_top_cut(usize::MAX), Ok(Some(16)));
}

#[test]
fn lib_two_players_first_round() {
    let players = vec![
        Player::new("afirst", "alast", None),
        Player::new("bfirst", "blast", None),
    ];

    let mut pairings = Pairings::new_swiss();

    let first_round = pairings.next_round(&players).unwrap();
    assert_eq!(first_round.len(), 1);
    assert!(
        first_round[0].get_player().get_full_name() == players[0].get_full_name()
            || first_round[0]
                .get_opponent()
                .as_ref()
                .unwrap()
                .get_full_name()
                == players[0].get_full_name()
    );

    let _ = pairings.round_ended(&[
        // game 1
        (&first_round[0], Result::Win),
        // game 2
        (&first_round[0], Result::Draw),
    ]);
}

#[test]
fn lib_three_players_first_round() {
    let players = vec![
        Player::new("afirst", "alast", None),
        Player::new("bfirst", "blast", None),
        Player::new("cfirst", "clast", None),
    ];

    let mut pairings = Pairings::new_swiss();

    let first_round = pairings.next_round(&players).unwrap();
    assert_eq!(first_round.len(), 2);
    assert!(first_round[1].get_opponent().is_none());

    let _ = pairings.round_ended(&[
        // game 1
        (&first_round[0], Result::Win),
        (&first_round[0], Result::Bye),
        // game 2
        (&first_round[0], Result::Draw),
        (&first_round[0], Result::Bye),
    ]);
}

#[test]
fn swiss_round_counts() {
    let algorithm = SwissPairingAlgorithm::new();

    assert_eq!(algorithm.get_total_rounds(2), Ok(3));
    assert_eq!(algorithm.get_total_rounds(9), Ok(3));

    assert_eq!(algorithm.get_total_rounds(10), Ok(4));
    assert_eq!(algorithm.get_total_rounds(15), Ok(4));
    assert_eq!(algorithm.get_total_rounds(16), Ok(4));
    assert_eq!(algorithm.get_total_rounds(24), Ok(4));
    assert_eq!(algorithm.get_total_rounds(25), Ok(4));
    assert_eq!(algorithm.get_total_rounds(32), Ok(4));

    assert_eq!(algorithm.get_total_rounds(33), Ok(5));
    assert_eq!(algorithm.get_total_rounds(56), Ok(5));

    assert_eq!(algorithm.get_total_rounds(57), Ok(6));
    assert_eq!(algorithm.get_total_rounds(80), Ok(6));

    assert_eq!(algorithm.get_total_rounds(81), Ok(7));
    assert_eq!(algorithm.get_total_rounds(128), Ok(7));
    assert_eq!(algorithm.get_total_rounds(129), Ok(7));
    assert_eq!(algorithm.get_total_rounds(192), Ok(7));

    assert_eq!(algorithm.get_total_rounds(193), Ok(8));
    assert_eq!(algorithm.get_total_rounds(256), Ok(8));

    assert_eq!(algorithm.get_total_rounds(257), Ok(9));
    assert_eq!(algorithm.get_total_rounds(usize::MAX), Ok(9));
}

#[test]
fn swiss_top_cut() {
    let algorithm = SwissPairingAlgorithm::new();

    assert_eq!(algorithm.get_top_cut(2), Ok(None));
    assert_eq!(algorithm.get_top_cut(9), Ok(None));
    assert_eq!(algorithm.get_top_cut(10), Ok(None));
    assert_eq!(algorithm.get_top_cut(15), Ok(None));

    assert_eq!(algorithm.get_top_cut(16), Ok(Some(4)));
    assert_eq!(algorithm.get_top_cut(24), Ok(Some(4)));

    assert_eq!(algorithm.get_top_cut(25), Ok(Some(8)));
    assert_eq!(algorithm.get_top_cut(32), Ok(Some(8)));
    assert_eq!(algorithm.get_top_cut(33), Ok(Some(8)));
    assert_eq!(algorithm.get_top_cut(56), Ok(Some(8)));
    assert_eq!(algorithm.get_top_cut(57), Ok(Some(8)));
    assert_eq!(algorithm.get_top_cut(80), Ok(Some(8)));
    assert_eq!(algorithm.get_top_cut(81), Ok(Some(8)));
    assert_eq!(algorithm.get_top_cut(128), Ok(Some(8)));

    assert_eq!(algorithm.get_top_cut(129), Ok(Some(16)));
    assert_eq!(algorithm.get_top_cut(192), Ok(Some(16)));
    assert_eq!(algorithm.get_top_cut(193), Ok(Some(16)));
    assert_eq!(algorithm.get_top_cut(256), Ok(Some(16)));
    assert_eq!(algorithm.get_top_cut(257), Ok(Some(16)));
    assert_eq!(algorithm.get_top_cut(usize::MAX), Ok(Some(16)));
}

#[test]
fn swiss_two_players_first_round() {
    let players = vec![
        Player::new("afirst", "alast", None),
        Player::new("bfirst", "blast", None),
    ];

    let rounds: Vec<Round> = vec![];

    let algorithm = SwissPairingAlgorithm::new();

    let first_round = algorithm.next_pairings(&players, &rounds);
    assert_eq!(first_round.len(), 1);
    assert!(
        first_round[0].get_player().get_full_name() == players[0].get_full_name()
            || first_round[0]
                .get_opponent()
                .as_ref()
                .unwrap()
                .get_full_name()
                == players[0].get_full_name()
    );

    let _ = algorithm.round_ended(
        &first_round,
        &[
            // game 1
            (&first_round[0], Result::Win),
            // game 2
            (&first_round[0], Result::Draw),
        ],
    );
}

#[test]
fn swiss_three_players_first_round() {
    let players = vec![
        Player::new("afirst", "alast", None),
        Player::new("bfirst", "blast", None),
        Player::new("cfirst", "clast", None),
    ];

    let rounds: Vec<Round> = vec![];

    let algorithm = SwissPairingAlgorithm::new();

    let first_round = algorithm.next_pairings(&players, &rounds);
    assert_eq!(first_round.len(), 2);
    assert!(first_round[1].get_opponent().is_none());

    let _ = algorithm.round_ended(
        &first_round,
        &[
            // game 1
            (&first_round[0], Result::Win),
            (&first_round[0], Result::Bye),
            // game 2
            (&first_round[0], Result::Draw),
            (&first_round[0], Result::Bye),
        ],
    );
}

#[test]
fn too_few_players_are_refused() {
    let pairings = Pairings::new_swiss();
    assert_eq!(pairings.get_total_rounds(0), Err(PairingError::InvalidPlayerCount));
    assert_eq!(pairings.get_total_rounds(1), Err(PairingError::InvalidPlayerCount));
    assert_eq!(pairings.get_top_cut(0), Err(PairingError::InvalidPlayerCount));
    assert_eq!(pairings.get_top_cut(1), Err(PairingError::InvalidPlayerCount));
}

#[test]
fn ten_and_twenty_players() {
    let pairings = Pairings::new_swiss();
    assert_eq!(pairings.get_total_rounds(10), Ok(4));
    assert_eq!(pairings.get_top_cut(10), Ok(None));
    assert_eq!(pairings.get_total_rounds(20), Ok(4));
    assert_eq!(pairings.get_top_cut(20), Ok(Some(4)));
}

#[test]
fn sizing_is_monotone() {
    let pairings = Pairings::new_swiss();
    let mut last_rounds = 0;
    let mut last_cut = 0;
    for n in 2..400 {
        let rounds = pairings.get_total_rounds(n).unwrap();
        let cut = pairings.get_top_cut(n).unwrap().unwrap_or(0);
        assert!(rounds >= last_rounds);
        assert!(cut >= last_cut);
        last_rounds = rounds;
        last_cut = cut;
    }
}

#[test]
fn single_swiss_uses_its_configuration() {
    let points = Points { win: 3, draw: 0, loss: 0, bye: 3 };
    let pairings = Pairings::new_single_swiss(points, 5, Some(8));
    assert_eq!(pairings.get_total_rounds(1), Err(PairingError::InvalidPlayerCount));
    assert_eq!(pairings.get_total_rounds(40), Ok(5));
    assert_eq!(pairings.get_top_cut(40), Ok(Some(8)));
    let algorithm = SingleSwissPairingAlgorithm::new(points, 6, None);
    assert_eq!(algorithm.get_total_rounds(12), Ok(6));
    assert_eq!(algorithm.get_top_cut(12), Ok(None));
    assert_eq!(algorithm.get_top_cut(0), Err(PairingError::InvalidPlayerCount));
}

#[test]
fn even_first_round_pairs_everyone_once() {
    let players: Vec<Player> = (0..8)
        .map(|i| Player::new(format!("first{}", i).as_str(), "last", None))
        .collect();
    let mut pairings = Pairings::new_swiss();
    let round = pairings.next_round(&players).unwrap();
    assert_eq!(round.len(), 4);
    for p in &round {
        assert!(p.get_opponent().is_some());
        assert!(p.get_result().is_none());
    }
    for player in &players {
        assert_eq!(round.iter().filter(|p| p.has_player(player)).count(), 1);
    }
}

#[test]
fn odd_first_round_has_one_bye() {
    let players: Vec<Player> = (0..7)
        .map(|i| Player::new(format!("first{}", i).as_str(), "last", None))
        .collect();
    let mut pairings = Pairings::new_swiss();
    let round = pairings.next_round(&players).unwrap();
    assert_eq!(round.len(), 4);
    assert_eq!(round.iter().filter(|p| p.get_opponent().is_none()).count(), 1);
    for player in &players {
        assert_eq!(round.iter().filter(|p| p.has_player(player)).count(), 1);
    }
    let byed = round[3].get_player();
    assert!(pairings.player_stats(byed).had_bye);
    for player in &players {
        if player != byed {
            assert!(!pairings.player_stats(player).had_bye);
        }
    }
}

#[test]
fn win_and_loss_are_scored() {
    let players = vec![
        Player::with_id("a", "afirst", "alast", None),
        Player::with_id("b", "bfirst", "blast", None),
    ];
    let mut pairings = Pairings::new_swiss();
    let round = pairings.next_round_seeded(&players, vec![0, 1]).unwrap();
    assert_eq!(round.len(), 1);
    assert!(round[0].get_player() == &players[0]);
    assert_eq!(
        pairings.round_ended(&[(&round[0], Result::Win), (&round[0], Result::Loss)]),
        Ok(())
    );
    let a = pairings.player_stats(&players[0]);
    let b = pairings.player_stats(&players[1]);
    assert_eq!(a.score, 3);
    assert_eq!(b.score, 0);
    assert_eq!(a.rounds_played, 1);
    assert_eq!(b.rounds_played, 1);
    assert_eq!(pairings.get_rounds()[0].get_pairings()[0].get_result(), Some(Result::Win));
    assert_eq!(pairings.get_current_round(), 2);
}

#[test]
fn three_players_draw_and_bye() {
    let players = vec![
        Player::with_id("a", "afirst", "alast", None),
        Player::with_id("b", "bfirst", "blast", None),
        Player::with_id("c", "cfirst", "clast", None),
    ];
    let mut pairings = Pairings::new_swiss();
    let round = pairings.next_round_seeded(&players, vec![0, 1, 2]).unwrap();
    assert_eq!(round.len(), 2);
    assert!(round[1].get_opponent().is_none());
    assert!(round[1].get_player() == &players[2]);
    assert_eq!(
        pairings.round_ended(&[
            (&round[0], Result::Draw),
            (&round[0], Result::Draw),
            (&round[1], Result::Bye),
        ]),
        Ok(())
    );
    assert_eq!(pairings.player_stats(&players[0]).score, 1);
    assert_eq!(pairings.player_stats(&players[1]).score, 1);
    let c = pairings.player_stats(&players[2]);
    assert_eq!(c.score, 3);
    assert_eq!(c.rounds_played, 1);
    assert!(c.had_bye);
    assert_eq!(c.strength_of_schedule, 0);
}

#[test]
fn strength_of_schedule_values() {
    let players = four_players();
    let mut pairings = Pairings::new_swiss();
    let fresh = pairings.player_stats(&players[0]);
    assert_eq!(fresh.strength_of_schedule, 0);
    assert_eq!(fresh.extended_strength_of_schedule, 0);
    assert_eq!(fresh.rounds_played, 0);
    // a beats b, c beats d
    let first = pairings.next_round_seeded(&players, vec![0, 1, 2, 3]).unwrap();
    pairings
        .round_ended(&[
            (&first[0], Result::Win),
            (&first[0], Result::Loss),
            (&first[1], Result::Win),
            (&first[1], Result::Loss),
        ])
        .unwrap();
    // opponents had played no round when they were faced
    for p in &players {
        assert_eq!(pairings.player_stats(p).strength_of_schedule, 0);
        assert_eq!(pairings.player_stats(p).extended_strength_of_schedule, 0);
    }
    // a beats c, b beats d
    let second = pairings.next_round_seeded(&players, vec![0, 1, 2, 3]).unwrap();
    assert!(second[0].get_player() == &players[0]);
    assert!(second[0].get_opponent().as_ref().unwrap() == &players[2]);
    pairings
        .round_ended(&[
            (&second[0], Result::Win),
            (&second[0], Result::Loss),
            (&second[1], Result::Win),
            (&second[1], Result::Loss),
        ])
        .unwrap();
    let stats: Vec<_> = players.iter().map(|p| pairings.player_stats(p)).collect();
    assert_eq!(stats[0].score, 6);
    assert_eq!(stats[1].score, 3);
    assert_eq!(stats[2].score, 3);
    assert_eq!(stats[3].score, 0);
    // a faced b (0 points a round) and then c (3 points a round)
    assert_eq!(stats[0].strength_of_schedule, 3 * SCALE / 2);
    assert_eq!(stats[2].strength_of_schedule, 3 * SCALE / 2);
    assert_eq!(stats[1].strength_of_schedule, 0);
    assert_eq!(stats[3].strength_of_schedule, 0);
    for st in &stats {
        assert_eq!(st.extended_strength_of_schedule, 3 * SCALE / 4);
        assert_eq!(st.rounds_played, 2);
    }
}

#[test]
fn second_round_avoids_rematches() {
    let players = four_players();
    let mut pairings = Pairings::new_swiss();
    let first = pairings.next_round_seeded(&players, vec![0, 1, 2, 3]).unwrap();
    assert!(first[0].get_player() == &players[0]);
    assert!(first[0].get_opponent().as_ref().unwrap() == &players[1]);
    pairings
        .round_ended(&[
            (&first[0], Result::Win),
            (&first[0], Result::Loss),
            (&first[1], Result::Win),
            (&first[1], Result::Loss),
        ])
        .unwrap();
    let second = pairings.next_round_seeded(&players, vec![0, 1, 2, 3]).unwrap();
    assert_eq!(second.len(), 2);
    assert!(second[0].get_player() == &players[0]);
    assert!(second[0].get_opponent().as_ref().unwrap() == &players[2]);
    assert!(second[1].get_player() == &players[1]);
    assert!(second[1].get_opponent().as_ref().unwrap() == &players[3]);
}

#[test]
fn rematch_when_no_one_else_is_left() {
    let players = vec![
        Player::with_id("a", "afirst", "alast", None),
        Player::with_id("b", "bfirst", "blast", None),
    ];
    let mut pairings = Pairings::new_swiss();
    let first = pairings.next_round_seeded(&players, vec![0, 1]).unwrap();
    pairings
        .round_ended(&[(&first[0], Result::Win), (&first[0], Result::Loss)])
        .unwrap();
    let second = pairings.next_round_seeded(&players, vec![1, 0]).unwrap();
    assert_eq!(second.len(), 1);
    assert!(second[0].get_player() == &players[0]);
    assert!(second[0].get_opponent().as_ref().unwrap() == &players[1]);
}

#[test]
fn second_bye_goes_to_a_player_without_one() {
    let players = vec![
        Player::with_id("a", "afirst", "alast", None),
        Player::with_id("b", "bfirst", "blast", None),
        Player::with_id("c", "cfirst", "clast", None),
    ];
    let mut pairings = Pairings::new_swiss();
    let first = pairings.next_round_seeded(&players, vec![0, 1, 2]).unwrap();
    pairings
        .round_ended(&[
            (&first[0], Result::Win),
            (&first[0], Result::Loss),
            (&first[1], Result::Bye),
        ])
        .unwrap();
    // a and c have 3 points, b has none: b ranks last and has had no bye.
    let second = pairings.next_round_seeded(&players, vec![0, 1, 2]).unwrap();
    assert!(second[1].get_opponent().is_none());
    assert!(second[1].get_player() == &players[1]);
}

#[test]
fn next_round_while_open_is_refused() {
    let players = four_players();
    let mut pairings = Pairings::new_swiss();
    assert_eq!(pairings.get_current_round(), 1);
    pairings.next_round(&players).unwrap();
    assert_eq!(pairings.next_round(&players), Err(PairingError::RoundInProgress));
    assert_eq!(pairings.get_rounds().len(), 1);
    assert_eq!(pairings.get_current_round(), 1);
    assert!(pairings.round_in_progress());
}

#[test]
fn recording_twice_changes_nothing() {
    let players = four_players();
    let mut pairings = Pairings::new_swiss();
    let round = pairings.next_round_seeded(&players, vec![0, 1, 2, 3]).unwrap();
    let reports = [
        (&round[0], Result::Win),
        (&round[0], Result::Loss),
        (&round[1], Result::Draw),
        (&round[1], Result::Draw),
    ];
    assert_eq!(pairings.round_ended(&reports), Ok(()));
    let before: Vec<_> = players.iter().map(|p| pairings.player_stats(p)).collect();
    assert_eq!(pairings.round_ended(&reports), Err(PairingError::NoOpenRound));
    let after: Vec<_> = players.iter().map(|p| pairings.player_stats(p)).collect();
    assert_eq!(before, after);
    assert!(!pairings.round_in_progress());
}

#[test]
fn recording_without_a_round_is_refused() {
    let mut pairings = Pairings::new_swiss();
    assert_eq!(pairings.round_ended(&[]), Err(PairingError::NoOpenRound));
}

#[test]
fn missing_report_is_incomplete() {
    let players = four_players();
    let mut pairings = Pairings::new_swiss();
    let round = pairings.next_round_seeded(&players, vec![0, 1, 2, 3]).unwrap();
    assert_eq!(
        pairings.round_ended(&[(&round[0], Result::Win), (&round[0], Result::Loss)]),
        Err(PairingError::IncompleteResults)
    );
    assert!(pairings.round_in_progress());
    assert_eq!(pairings.player_stats(&players[0]).score, 0);
}

#[test]
fn contradicting_reports_are_inconsistent() {
    let players = four_players();
    let mut pairings = Pairings::new_swiss();
    let round = pairings.next_round_seeded(&players, vec![0, 1, 2, 3]).unwrap();
    assert_eq!(
        pairings.round_ended(&[
            (&round[0], Result::Win),
            (&round[0], Result::Win),
            (&round[1], Result::Draw),
            (&round[1], Result::Draw),
        ]),
        Err(PairingError::InconsistentResults)
    );
    assert_eq!(
        pairings.round_ended(&[
            (&round[0], Result::Win),
            (&round[1], Result::Draw),
            (&round[1], Result::Draw),
        ]),
        Err(PairingError::InconsistentResults)
    );
    assert!(pairings.round_in_progress());
}

#[test]
fn report_on_another_pairing_is_inconsistent() {
    let players = four_players();
    let mut pairings = Pairings::new_swiss();
    let round = pairings.next_round_seeded(&players, vec![0, 1, 2, 3]).unwrap();
    let elsewhere = Pairing::from_parts(players[0].clone(), Some(players[2].clone()), None);
    assert_eq!(
        pairings.round_ended(&[
            (&round[0], Result::Win),
            (&round[0], Result::Loss),
            (&round[1], Result::Loss),
            (&round[1], Result::Win),
            (&elsewhere, Result::Win),
        ]),
        Err(PairingError::InconsistentResults)
    );
}

#[test]
fn reports_match_pairings_in_either_order() {
    let players = four_players();
    let swapped = Pairing::from_parts(players[1].clone(), Some(players[0].clone()), None);
    let straight = Pairing::from_parts(players[0].clone(), Some(players[1].clone()), Some(Result::Win));
    assert!(swapped.same_players_as(&straight));
    assert!(straight == swapped);
    assert_eq!(straight.get_player_opponent(&players[1]), Some(&players[0]));
    assert_eq!(straight.get_player_opponent(&players[2]), None);
    assert!(!straight.has_player(&players[3]));
}

#[test]
fn random_order_is_a_permutation() {
    let mut moved = false;
    for _ in 0..5 {
        let order = random_order(40);
        let mut sorted = order.clone();
        sorted.sort();
        assert_eq!(sorted, (0..40).collect::<Vec<usize>>());
        if order != sorted {
            moved = true;
        }
    }
    assert!(moved);
}

#[test]
fn new_players_get_distinct_ids() {
    let a = Player::new("afirst", "alast", None);
    let b = Player::new("afirst", "alast", None);
    assert!(!a.get_id().is_empty());
    assert!(a.get_id() != b.get_id());
    assert!(a != b);
}

#[test]
fn player_names() {
    let a = Player::new("afirst", "alast", None);
    let b = Player::new("bfirst", "blast", Some(String::from("bee")));
    assert_eq!(a.get_first_name(), "afirst");
    assert_eq!(a.get_last_name(), "alast");
    assert_eq!(a.get_full_name(), "afirst alast");
    assert_eq!(a.get_nickname(), "afirst alast");
    assert_eq!(b.get_nickname(), "bee");
}

#[test]
fn configured_points_are_used() {
    let players = vec![
        Player::with_id("a", "afirst", "alast", None),
        Player::with_id("b", "bfirst", "blast", None),
        Player::with_id("c", "cfirst", "clast", None),
    ];
    let points = Points { win: 2, draw: 1, loss: 0, bye: 2 };
    let mut pairings = Pairings::new_swiss_with_points(points);
    let round = pairings.next_round_seeded(&players, vec![0, 1, 2]).unwrap();
    pairings
        .round_ended(&[
            (&round[0], Result::Loss),
            (&round[0], Result::Win),
            (&round[1], Result::Bye),
        ])
        .unwrap();
    assert_eq!(pairings.player_stats(&players[0]).score, 0);
    assert_eq!(pairings.player_stats(&players[1]).score, 2);
    assert_eq!(pairings.player_stats(&players[2]).score, 2);
    assert_eq!(
        pairings.get_rounds()[0].get_pairings()[0].get_result(),
        Some(Result::Loss)
    );
}

#[test]
fn pairing_from_slice() {
    let players = four_players();
    let pair = Pairing::from_slice(&players[0..2]);
    assert!(pair.get_player() == &players[0]);
    assert!(pair.get_opponent().as_ref().unwrap() == &players[1]);
    let bye = Pairing::from_slice(&players[2..3]);
    assert!(bye.get_opponent().is_none());
    assert!(bye.get_result().is_none());
}

#[test]
fn recorded_result_is_never_replaced() {
    let players = four_players();
    let algorithm = SwissPairingAlgorithm::new();
    let done = Pairing::from_parts(players[0].clone(), Some(players[1].clone()), Some(Result::Win));
    let open = Pairing::from_parts(players[2].clone(), Some(players[3].clone()), None);
    let round = vec![done.clone(), open.clone()];
    let reports = [
        (&done, Result::Loss),
        (&done, Result::Win),
        (&open, Result::Draw),
        (&open, Result::Draw),
    ];
    assert_eq!(check_reports(&round, &reports), Some(PairingError::DoubleRecording));
    assert_eq!(algorithm.round_ended(&round, &reports), Err(PairingError::DoubleRecording));
    assert_eq!(check_reports(&vec![open.clone()], &reports[2..]), None);
}

#[test]
fn distinct_ids_are_checked() {
    let players = four_players();
    assert!(all_ids_distinct(&players));
    let mut twice = four_players();
    twice.push(Player::with_id("b", "other", "player", None));
    assert!(!all_ids_distinct(&twice));
    assert!(all_ids_distinct(&vec![]));
}

#[test]
fn bye_when_everyone_had_one_goes_to_the_lowest_ranked() {
    let players = vec![
        Player::with_id("a", "afirst", "alast", None),
        Player::with_id("b", "bfirst", "blast", None),
        Player::with_id("c", "cfirst", "clast", None),
    ];
    let byes: Vec<Pairing> = players
        .iter()
        .map(|p| Pairing::from_parts(p.clone(), None, Some(Result::Bye)))
        .collect();
    let rounds = vec![Round::new(byes)];
    let algorithm = SwissPairingAlgorithm::new();
    let next = algorithm.next_pairings_seeded(&players, &rounds, vec![0, 1, 2]);
    assert!(next[1].get_opponent().is_none());
    assert!(next[1].get_player() == &players[2]);
    let next = algorithm.next_pairings_seeded(&players, &rounds, vec![2, 1, 0]);
    assert!(next[1].get_player() == &players[0]);
}

#[test]
fn same_seed_gives_same_pairings() {
    let players = four_players();
    let rounds: Vec<Round> = vec![];
    let algorithm = SwissPairingAlgorithm::new();
    let one = algorithm.next_pairings_seeded(&players, &rounds, vec![3, 2, 1, 0]);
    let two = algorithm.next_pairings_seeded(&players, &rounds, vec![3, 2, 1, 0]);
    assert_eq!(one.len(), 2);
    for (x, y) in one.iter().zip(two.iter()) {
        assert!(x.get_player() == y.get_player());
        assert!(x.get_opponent() == y.get_opponent());
    }
    assert!(one[0].get_player() == &players[3]);
    assert!(one[0].get_opponent().as_ref().unwrap() == &players[2]);
    assert!(one[1].get_player() == &players[1]);
    assert!(one[1].get_opponent().as_ref().unwrap() == &players[0]);
}
