use arcadeum::game::Move;
use arcadeum::store::{
    dispatch_timeout, flush_actions, pending_player, random_step, read_store, read_store_proof,
    store_draw, store_settle, store_step, write_store, Phase, SecretEntry, SecretKnowledge,
    StoreAction, StoreImage, StoreStateModel,
};
use arcadeum::{Proof, ProofState, RootProof};
use arcadeum::crypto::{address, public_key, recover};
use arcadeum::game::{Player as Mark, State as Game};
use arcadeum::tester::{tester_approvals, tester_root};
use arcadeum::{PlayerAction, State};
use rand::{RngCore, SeedableRng};

fn ready(action_count: usize, reveal_count: usize) -> StoreStateModel<Game> {
    StoreStateModel::Ready { state: Game::new(), action_count, reveal_count, event_count: 4 }
}

fn counts(st: &StoreStateModel<Game>) -> (usize, usize) {
    match st {
        StoreStateModel::Ready { action_count, reveal_count, .. }
        | StoreStateModel::Pending { action_count, reveal_count, .. } => (*action_count, *reveal_count),
    }
}

fn is_phase(st: &StoreStateModel<Game>, want: &str) -> bool {
    match st {
        StoreStateModel::Pending { phase, .. } => match (phase, want) {
            (Phase::Idle { .. }, "idle") => true,
            (Phase::RandomCommit, "commit") => true,
            (Phase::RandomReply { .. }, "reply") => true,
            (Phase::RandomReveal { .. }, "reveal_seed") => true,
            (Phase::Reveal { .. }, "reveal") => true,
            _ => false,
        },
        StoreStateModel::Ready { .. } => want == "ready",
    }
}

#[test]
fn a_play_starts_a_transition() {
    let mut st = ready(2, 5);
    let out = store_step(&mut st, Some(0), &StoreAction::new(Move(1, 1)), false).unwrap();
    let started = out.unwrap();
    assert_eq!(started.winner(), None);
    assert!(is_phase(&st, "idle"));
    assert_eq!(counts(&st), (3, 5));

    // A second play while the transition is under way is refused, and changes nothing.
    assert!(store_step(&mut st, Some(0), &StoreAction::new(Move(1, 1)), false).is_err());
    assert_eq!(counts(&st), (3, 5));
}

#[test]
fn a_refused_play_changes_nothing() {
    let mut st = ready(2, 5);
    // Out of turn.
    assert!(store_step(&mut st, Some(1), &StoreAction::new(Move(1, 1)), false).is_err());
    // Off the board.
    assert!(store_step(&mut st, Some(1), &StoreAction::new(Move(9, 9)), false).is_err());
    assert!(store_step(&mut st, Some(0), &StoreAction::new(Move(3, 0)), false).is_err());
    // Not a seated player.
    assert!(store_step(&mut st, None, &StoreAction::new(Move(0, 0)), false).is_err());
    assert!(is_phase(&st, "ready"));
    assert_eq!(counts(&st), (2, 5));
    // Exchange steps are refused by a ready store.
    assert!(store_step(&mut st, None, &StoreAction::<Move>::RandomCommit([0; 32]), false).is_err());
}

#[test]
fn exchange_steps_count_reveals() {
    let seed = [3u8; 16];
    let reply = vec![5u8; 16];
    let hash = tiny_keccak::keccak256(&seed);
    let mut st: StoreStateModel<Game> =
        StoreStateModel::Pending { phase: Phase::RandomCommit, action_count: 1, reveal_count: 0 };
    store_step(&mut st, Some(0), &StoreAction::<Move>::RandomCommit(hash), false).unwrap();
    assert!(is_phase(&st, "reply"));
    store_step(&mut st, Some(1), &StoreAction::<Move>::RandomReply(reply), false).unwrap();
    assert!(is_phase(&st, "reveal_seed"));
    store_step(&mut st, Some(0), &StoreAction::<Move>::RandomReveal(seed.to_vec()), false)
        .unwrap();
    match &st {
        StoreStateModel::Pending { phase: Phase::Idle { random, secret }, .. } => {
            assert_eq!(*random, Some([3 ^ 5; 16]));
            assert!(secret.is_none());
        }
        _ => panic!("randomness is not settled"),
    }
    assert_eq!(counts(&st), (1, 3));

    // A play is refused while pending.
    assert!(store_step(&mut st, Some(0), &StoreAction::new(Move(0, 0)), false).is_err());
}

#[test]
fn settling_makes_a_store_ready() {
    let mut st: StoreStateModel<Game> =
        StoreStateModel::Pending { phase: Phase::RandomCommit, action_count: 4, reveal_count: 2 };
    store_settle(&mut st, None);
    assert!(is_phase(&st, "commit"));
    let finished = Game::new().next(Mark::One, &[0, 0], &[]).unwrap();
    store_settle(&mut st, Some((finished, 7)));
    match st {
        StoreStateModel::Ready { state, action_count, reveal_count, event_count } => {
            assert_eq!(state.next_player(), Some(Mark::Two));
            assert_eq!((action_count, reveal_count, event_count), (4, 2, 7));
        }
        _ => panic!("not ready"),
    }
}

#[test]
fn drawn_randomness_counts_three_reveals() {
    let mut st: StoreStateModel<Game> =
        StoreStateModel::Pending { phase: Phase::RandomCommit, action_count: 1, reveal_count: 1 };
    assert!(store_draw(&mut st, [9; 16]));
    assert_eq!(counts(&st), (1, 4));
    match &st {
        StoreStateModel::Pending { phase: Phase::Idle { random, .. }, .. } => {
            assert_eq!(*random, Some([9; 16]))
        }
        _ => panic!("randomness is not settled"),
    }
    assert!(!store_draw(&mut st, [9; 16]));
    assert_eq!(counts(&st), (1, 4));
}

#[test]
fn random_steps_reveal_known_secrets() {
    let mut st: StoreStateModel<Game> = StoreStateModel::Pending {
        phase: Phase::Reveal { random: None, revealer: 1 },
        action_count: 1,
        reveal_count: 0,
    };
    assert_eq!(random_step::<Game>(&mut st, [0; 16], None, true), Ok(false));
    assert!(random_step::<Game>(&mut st, [0; 16], Some(vec![4]), false).is_err());
    assert_eq!(random_step::<Game>(&mut st, [0; 16], Some(vec![4]), true), Ok(true));
    match &st {
        StoreStateModel::Pending { phase: Phase::Idle { secret, .. }, reveal_count, .. } => {
            assert_eq!(secret, &Some(vec![4]));
            assert_eq!(*reveal_count, 1);
        }
        _ => panic!("the secret is not revealed"),
    }

    let mut st: StoreStateModel<Game> =
        StoreStateModel::Pending { phase: Phase::RandomCommit, action_count: 1, reveal_count: 0 };
    assert_eq!(random_step::<Game>(&mut st, [6; 16], None, false), Ok(true));
    assert_eq!(counts(&st), (1, 3));
}

#[test]
fn the_first_player_commits_when_flushing() {
    let seed = [8u8; 16];
    let mut st: StoreStateModel<Game> =
        StoreStateModel::Pending { phase: Phase::RandomCommit, action_count: 1, reveal_count: 0 };
    let mut committed = None;
    let actions =
        flush_actions::<Game>(&mut st, Some(0), seed, &mut committed, true, false, None, false)
            .unwrap();
    assert_eq!(actions.len(), 1);
    match &actions[0] {
        StoreAction::RandomCommit(hash) => assert_eq!(hash, &tiny_keccak::keccak256(&seed)),
        _ => panic!("not a commitment"),
    }
    assert_eq!(committed, Some(seed.to_vec()));
    assert!(is_phase(&st, "reply"));

    // The first player has nothing more to send until the second one replies.
    let actions =
        flush_actions::<Game>(&mut st, Some(0), seed, &mut committed, true, false, None, false)
            .unwrap();
    assert!(actions.is_empty());

    // The second player replies, then the first reveals its seed.
    let reply = [1u8; 16];
    let actions =
        flush_actions::<Game>(&mut st, Some(1), reply, &mut None, true, false, None, false)
            .unwrap();
    assert_eq!(actions.len(), 1);
    assert!(is_phase(&st, "reveal_seed"));
    let actions =
        flush_actions::<Game>(&mut st, Some(0), [0; 16], &mut committed, true, false, None, false)
            .unwrap();
    assert_eq!(actions.len(), 1);
    match &st {
        StoreStateModel::Pending { phase: Phase::Idle { random, .. }, reveal_count, .. } => {
            assert_eq!(*random, Some([8 ^ 1; 16]));
            assert_eq!(*reveal_count, 3);
        }
        _ => panic!("randomness is not settled"),
    }
}

#[test]
fn flushing_without_a_committed_seed_fails() {
    let mut st: StoreStateModel<Game> = StoreStateModel::Pending {
        phase: Phase::RandomReveal { hash: [0; 32], owner_hash: false, reply: vec![1; 16] },
        action_count: 1,
        reveal_count: 2,
    };
    assert!(flush_actions::<Game>(&mut st, Some(0), [0; 16], &mut None, true, false, None, false)
        .is_err());
}

#[test]
fn the_owner_reveals_for_a_player_when_not_peer_to_peer() {
    let mut st: StoreStateModel<Game> = StoreStateModel::Pending {
        phase: Phase::Reveal { random: None, revealer: 0 },
        action_count: 1,
        reveal_count: 0,
    };
    let actions = flush_actions::<Game>(
        &mut st,
        None,
        [0; 16],
        &mut None,
        true,
        false,
        Some(vec![1, 2]),
        true,
    )
    .unwrap();
    assert_eq!(actions.len(), 1);
    assert!(is_phase(&st, "idle"));
    // A refused part is an error.
    let mut st: StoreStateModel<Game> = StoreStateModel::Pending {
        phase: Phase::Reveal { random: None, revealer: 0 },
        action_count: 1,
        reveal_count: 0,
    };
    assert!(flush_actions::<Game>(
        &mut st,
        None,
        [0; 16],
        &mut None,
        true,
        false,
        Some(vec![1, 2]),
        false,
    )
    .is_err());
}

fn generator(seed: u8) -> Vec<u8> {
    serde_cbor::to_vec(&rand_xorshift::XorShiftRng::from_seed([seed; 16])).unwrap()
}

fn secret(value: u8) -> Vec<u8> {
    serde_cbor::to_vec(&[value; 16]).unwrap()
}

fn image(player: Option<u8>, first_secret: u8) -> StoreImage {
    StoreImage {
        player,
        root_secrets: [
            Some(SecretEntry { secret: secret(first_secret), generator: generator(first_secret) }),
            Some(SecretEntry { secret: secret(2), generator: generator(2) }),
        ],
        root: vec![1, 2, 3],
        proof_secrets: [
            Some(SecretEntry { secret: secret(first_secret), generator: generator(first_secret) }),
            None,
        ],
        proof: vec![4, 5],
        seed: Some(vec![6; 16]),
    }
}

#[test]
fn store_images_read_back() {
    let owner = image(None, 1);
    let data = write_store(&owner, SecretKnowledge::Both);
    assert_eq!(data[0], 3);
    let read = read_store::<[u8; 16]>(&data).unwrap();
    assert_eq!(read.player, None);
    assert_eq!(read.root, vec![1, 2, 3]);
    assert_eq!(read.proof, vec![4, 5]);
    assert_eq!(read.seed, Some(vec![6; 16]));
    assert_eq!(read.root_secrets[0].as_ref().unwrap().secret, secret(1));
    assert_eq!(read.root_secrets[1].as_ref().unwrap().generator, generator(2));
    assert!(read.proof_secrets[1].is_none());
    assert_eq!(write_store(&read, SecretKnowledge::Both), data);
}

#[test]
fn an_owner_store_written_for_a_player_is_that_players_store() {
    let owner = image(None, 1);
    let data = write_store(&owner, SecretKnowledge::Only(1));
    assert_eq!(data[0], 2);
    let read = read_store::<[u8; 16]>(&data).unwrap();
    assert_eq!(read.player, Some(1));
    assert!(read.root_secrets[0].is_none());
    assert!(read.root_secrets[1].is_some());
    assert_eq!(read.seed, None);

    let data = write_store(&owner, SecretKnowledge::Neither);
    assert_eq!(data[0], 0);
    let read = read_store::<[u8; 16]>(&data).unwrap();
    assert_eq!(read.player, None);
    assert!(read.root_secrets[0].is_none() && read.root_secrets[1].is_none());
}

#[test]
fn store_images_hide_the_other_players_secrets() {
    let a = image(None, 1);
    let b = image(None, 9);
    assert_eq!(
        write_store(&a, SecretKnowledge::Only(1)),
        write_store(&b, SecretKnowledge::Only(1)),
    );
    assert_eq!(write_store(&a, SecretKnowledge::Neither), write_store(&b, SecretKnowledge::Neither));
    assert_ne!(write_store(&a, SecretKnowledge::Only(0)), write_store(&b, SecretKnowledge::Only(0)));
}

#[test]
fn bad_store_images_are_refused() {
    let data = write_store(&image(Some(0), 1), SecretKnowledge::Both);
    assert_eq!(data[0], 1);
    let mut bad = data.clone();
    bad[0] = 4;
    assert!(read_store::<[u8; 16]>(&bad).is_err());
    let mut trailing = write_store(&image(Some(0), 1), SecretKnowledge::Only(1));
    trailing.push(0);
    assert!(read_store::<[u8; 16]>(&trailing).is_err());
    assert!(read_store::<[u8; 16]>(&data[..9]).is_err());
    // A generator that does not decode is refused.
    let mut broken = image(Some(0), 1);
    broken.root_secrets[1] = Some(SecretEntry { secret: secret(2), generator: vec![0xff] });
    assert!(read_store::<[u8; 16]>(&write_store(&broken, SecretKnowledge::Both)).is_err());
}

#[test]
fn a_test_game_starts_with_the_owners_approvals() {
    let owner = [1u8; 32];
    let players = [[2u8; 32], [3u8; 32]];
    let subkeys = [[4u8; 32], [5u8; 32]];
    let approvals = tester_approvals::<Box<Game>>(&owner, &players, &subkeys).unwrap();
    assert_eq!(approvals.len(), 2);
    for (i, approval) in approvals.iter().enumerate() {
        assert!(approval.player.is_none());
        match &approval.action {
            PlayerAction::Approve { player, subkey, signature } => {
                assert_eq!(*player, address(&public_key(&players[i]).unwrap()));
                assert_eq!(*subkey, address(&public_key(&subkeys[i]).unwrap()));
                let text = <Box<Game> as State>::approval(player, subkey);
                assert_eq!(
                    recover(text.as_bytes(), signature).unwrap(),
                    address(&public_key(&owner).unwrap()),
                );
            }
            _ => panic!("not an approval"),
        }
    }

    let root = tester_root::<Box<Game>>([0; 16], Box::new(Game::new()), &owner, &players, &subkeys, Vec::new())
        .unwrap();
    assert_eq!(root.author(), &address(&public_key(&owner).unwrap()));

    // An invalid key is refused.
    assert!(tester_approvals::<Box<Game>>(&[0u8; 32], &players, &subkeys).is_err());
    assert!(tester_root::<Box<Game>>([0; 16], Box::new(Game::new()), &owner, &[[0u8; 32], [3u8; 32]], &subkeys, Vec::new())
        .is_err());
}

#[test]
fn pending_players_follow_the_exchange() {
    assert!(pending_player(&ready(0, 0)).is_err());
    let pending = |phase| StoreStateModel::<Game>::Pending { phase, action_count: 1, reveal_count: 0 };
    assert_eq!(pending_player(&pending(Phase::RandomCommit)), Ok(Some(0)));
    assert_eq!(pending_player(&pending(Phase::RandomReply { hash: [0; 32], owner_hash: false })), Ok(Some(1)));
    assert_eq!(
        pending_player(&pending(Phase::RandomReveal { hash: [0; 32], owner_hash: false, reply: vec![] })),
        Ok(Some(0)),
    );
    assert_eq!(
        pending_player(&pending(Phase::RandomReveal { hash: [0; 32], owner_hash: true, reply: vec![] })),
        Ok(None),
    );
    assert_eq!(pending_player(&pending(Phase::Reveal { random: None, revealer: 1 })), Ok(Some(1)));
}

#[test]
fn only_the_owner_dispatches_timeouts() {
    let st = StoreStateModel::<Game>::Pending { phase: Phase::RandomCommit, action_count: 1, reveal_count: 0 };
    let mut committed = Some(vec![1, 2]);
    assert!(dispatch_timeout::<Game, Move>(Some(0), &st, [4; 16], &mut committed).is_err());
    assert_eq!(committed, Some(vec![1, 2]));

    match dispatch_timeout::<Game, Move>(None, &st, [4; 16], &mut committed).unwrap() {
        Some(StoreAction::RandomCommit(hash)) => assert_eq!(hash, tiny_keccak::keccak256(&[4; 16])),
        _ => panic!("not a commitment"),
    }
    assert_eq!(committed, Some(vec![4; 16]));

    let st = StoreStateModel::<Game>::Pending {
        phase: Phase::RandomReply { hash: [0; 32], owner_hash: false },
        action_count: 1,
        reveal_count: 1,
    };
    match dispatch_timeout::<Game, Move>(None, &st, [5; 16], &mut committed).unwrap() {
        Some(StoreAction::RandomReply(reply)) => assert_eq!(reply, vec![5; 16]),
        _ => panic!("not a reply"),
    }
    assert_eq!(committed, Some(vec![4; 16]));

    assert!(dispatch_timeout::<Game, Move>(None, &ready(1, 1), [5; 16], &mut committed).unwrap().is_none());
    assert_eq!(committed, None);
}

#[test]
fn stores_read_back_with_their_proofs() {
    let owner = [31u8; 32];
    let keys = [[32u8; 32], [33u8; 32]];
    let players = [address(&public_key(&keys[0]).unwrap()), address(&public_key(&keys[1]).unwrap())];
    let state = ProofState::<Box<Game>>::new([2; 16], players, Box::new(Game::new())).unwrap();
    let root = RootProof::new(state, Vec::new(), &mut |m: &[u8]| arcadeum::crypto::sign(m, &owner)).unwrap();
    let proof = Proof::new(root.clone());
    let mut store = image(None, 1);
    store.root = root.serialize();
    store.proof = proof.serialize();
    let data = write_store(&store, SecretKnowledge::Both);
    let (read, read_proof) = read_store_proof::<[u8; 16], Box<Game>>(&data).unwrap();
    assert_eq!(read.root, root.serialize());
    assert_eq!(read_proof.serialize(), proof.serialize());
    assert_eq!(read_proof.hash(), proof.hash());

    // A store whose proof bytes do not read is refused, though its framing is sound.
    let mut broken = store;
    broken.proof = vec![1, 2, 3];
    let data = write_store(&broken, SecretKnowledge::Both);
    assert!(read_store::<[u8; 16]>(&data).is_ok());
    assert!(read_store_proof::<[u8; 16], Box<Game>>(&data).is_err());
}

#[test]
fn empty_tree_proofs_are_refused() {
    assert!(arcadeum::merkle::MerkleProof::<Vec<u8>>::deserialize(&[0u8; 16]).is_err());
}

#[test]
fn test_keys_are_drawn_as_secp256k1_draws_them() {
    let draw = |random: &mut rand_xorshift::XorShiftRng| loop {
        let mut key = [0u8; 32];
        random.fill_bytes(&mut key);
        if secp256k1::SecretKey::parse(&key).is_ok() {
            break key;
        }
    };
    let mut randoms = [
        rand_xorshift::XorShiftRng::from_seed([0; 16]),
        rand_xorshift::XorShiftRng::from_seed([1; 16]),
        rand_xorshift::XorShiftRng::from_seed([2; 16]),
    ];
    let keys = [draw(&mut randoms[0]), draw(&mut randoms[1]), draw(&mut randoms[2])];
    let subkeys = [draw(&mut randoms[1]), draw(&mut randoms[2])];
    assert_eq!(arcadeum::tester::tester_keys(), Ok((keys, subkeys)));

    let root = arcadeum::tester::tester_game::<Box<Game>>([3; 16], Box::new(Game::new()), Vec::new())
        .unwrap();
    assert_eq!(root.author(), &address(&public_key(&keys[0]).unwrap()));
}
