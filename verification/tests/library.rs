use arcadeum::crypto::{address, public_key, recover, sign};
use arcadeum::game::{
    error_string, Move, Player as Mark, State as Game, ALREADY_PLAYED, BAD_COLUMN, BAD_ROW,
    NOT_PLAYER, WRONG_LENGTH, WRONG_TURN,
};
use arcadeum::merkle::{MerkleProof, MerkleTree};
use arcadeum::records::{tallies, Outcome, Tally};
use arcadeum::store::{
    advance, submission, timeout_action, Phase, Secret, SecretKnowledge, Step, StoreAction,
};
use arcadeum::utils::{hex, unhex};
use arcadeum::version::digest;
use arcadeum::{Action, Nonce, PlayerAction, Proof, ProofAction, ProofState, RootProof, State, ID};
use rand::{RngCore, SeedableRng};

#[test]
fn hex_of_bytes() {
    assert_eq!(
        &hex(b"quod erat demonstrandum"),
        "0x71756f6420657261742064656d6f6e737472616e64756d",
    );
    assert_eq!(&hex(&[]), "0x");
    assert_eq!(&hex(&[0x00, 0x0f, 0xab, 0xff]), "0x000fabff");
}

#[test]
fn unhex_of_text() {
    assert_eq!(
        unhex("0x71756f6420657261742064656d6f6e737472616e64756d"),
        Ok(b"quod erat demonstrandum".to_vec()),
    );
    assert_eq!(unhex("0XABcd"), Ok(vec![0xab, 0xcd]));
    assert_eq!(unhex("abcd"), Ok(vec![0xab, 0xcd]));
    assert_eq!(unhex(""), Ok(vec![]));
    assert!(unhex("0x123").is_err());
    assert!(unhex("0xzz").is_err());
}

#[test]
fn unhex_undoes_hex() {
    let mut random = rand_xorshift::XorShiftRng::from_seed([7; 16]);
    for length in 0..40 {
        let mut data = vec![0u8; length];
        random.fill_bytes(&mut data);
        assert_eq!(unhex(&hex(&data)), Ok(data));
    }
}

#[test]
fn recover_rejects_bad_signatures() {
    assert!(recover(b"message", &[0u8; 64]).is_err());
    assert!(recover(b"message", &[0u8; 65]).is_err());
}

#[test]
fn sign_then_recover_gives_the_signer() {
    let key = [9u8; 32];
    let signature = sign(b"quod erat demonstrandum", &key).unwrap();
    assert_eq!(
        recover(b"quod erat demonstrandum", &signature).unwrap(),
        address(&public_key(&key).unwrap())
    );
    assert_ne!(
        recover(b"quod erat demonstrandumx", &signature).ok(),
        Some(address(&public_key(&key).unwrap()))
    );
}

#[test]
fn merkle_proofs_lead_to_the_root() {
    let elements: Vec<Vec<u8>> = (0u8..5).map(|i| vec![i, i + 1]).collect();
    let tree = MerkleTree::new(elements.clone());
    assert_eq!(tree.len(), 5);
    assert!(!tree.is_empty());
    assert_eq!(tree.elements(), &elements);
    for i in 0..5 {
        let proof = tree.proof_at(i).unwrap();
        assert_eq!(proof.root(), tree.root());
        assert_eq!(proof.index(), i);
        assert_eq!(proof.length(), 5);
        assert_eq!(proof.element(), &elements[i]);
        let data = proof.serialize();
        let read = MerkleProof::<Vec<u8>>::deserialize(&data).unwrap();
        assert_eq!(read.root(), tree.root());
        assert_eq!(read.serialize(), data);
    }
    assert!(tree.proof_at(5).is_err());
}

#[test]
fn merkle_proof_hash_counts_differ_by_at_most_one() {
    // Five elements take eight leaf slots: the first three sit one level up.
    let elements: Vec<Vec<u8>> = (0u8..5).map(|i| vec![i, i + 1]).collect();
    let tree = MerkleTree::new(elements);
    let sizes: Vec<usize> = (0..5).map(|i| tree.proof_at(i).unwrap().serialize().len()).collect();
    let fixed = 4 + 2 + 4 + 4 + 4;
    for i in 0..3 {
        assert_eq!(sizes[i], fixed + 2 * 32);
    }
    for i in 3..5 {
        assert_eq!(sizes[i], fixed + 3 * 32);
    }
    let single = MerkleTree::new(vec![7u32]);
    assert_eq!(single.proof_at(0).unwrap().serialize().len(), 4 + 4 + 4 + 4 + 4);
}

#[test]
fn merkle_trees_read_back() {
    let elements: Vec<u32> = vec![1, 2, 3];
    let tree = MerkleTree::new(elements.clone());
    let data = tree.serialize();
    let read = MerkleTree::<u32>::deserialize(&data).unwrap();
    assert_eq!(read.root(), tree.root());
    assert_eq!(read.elements(), &elements);

    let salted = MerkleTree::with_salt_bytes(elements.clone(), 2, &[1, 2, 3, 4, 5, 6]);
    assert_ne!(salted.root(), tree.root());
    let read = MerkleTree::<u32>::deserialize(&salted.serialize()).unwrap();
    assert_eq!(read.root(), salted.root());
    assert_eq!(MerkleTree::with_salt_bytes(elements, 0, &[]).root(), tree.root());
}

#[test]
fn tic_tac_toe_rules() {
    let game = Game::new();
    assert_eq!(game.next_player(), Some(Mark::One));
    assert_eq!(game.winner(), None);

    assert_eq!(game.next(Mark::One, &[0], &[]).err(), Some(WRONG_LENGTH));
    assert_eq!(game.next(Mark::Two, &[0, 0], &[]).err(), Some(WRONG_TURN));
    assert_eq!(game.next(Mark::One, &[3, 0], &[]).err(), Some(BAD_ROW));
    assert_eq!(game.next(Mark::One, &[0, 3], &[]).err(), Some(BAD_COLUMN));

    let game = game.next(Mark::One, &[1, 1], &[]).unwrap();
    assert_eq!(game.next_player(), Some(Mark::Two));
    assert_eq!(game.next(Mark::Two, &[1, 1], &[]).err(), Some(ALREADY_PLAYED));

    let mut game = game;
    for (player, cell) in [
        (Mark::Two, [0, 0]),
        (Mark::One, [0, 2]),
        (Mark::Two, [2, 2]),
        (Mark::One, [2, 0]),
    ] {
        game = game.next(player, &cell, &[]).unwrap();
    }
    assert_eq!(game.winner(), Some(Mark::One));
    assert_eq!(game.next_player(), None);
    assert_eq!(game.next(Mark::Two, &[0, 1], &[]).err(), Some(WRONG_TURN));
}

#[test]
fn tic_tac_toe_codes() {
    assert_eq!(Mark::One.code(), 1);
    assert_eq!(Mark::Two.code(), 2);
    assert_eq!(Mark::try_from(1), Ok(Mark::One));
    assert_eq!(Mark::try_from(2), Ok(Mark::Two));
    assert_eq!(Mark::try_from(3), Err(NOT_PLAYER));
    assert_eq!(error_string(WRONG_TURN), "ErrorCode::WrongTurn");
    assert_eq!(error_string(0), "ErrorCode::BadEncoding");
    assert_eq!(error_string(6), "ErrorCode::AlreadyPlayed");
    assert_eq!(error_string(7), "not an ErrorCode");
}

#[test]
fn tic_tac_toe_state_reads_back() {
    let mut game = Game::new();
    game.apply(Some(0), &Move(0, 1)).unwrap();
    game.apply(Some(1), &Move(2, 2)).unwrap();
    assert!(game.apply(Some(1), &Move(0, 0)).is_err());
    assert!(game.apply(None, &Move(0, 0)).is_err());
    let data = State::serialize(&game).unwrap();
    assert_eq!(data, vec![0, 1, 0, 0, 0, 0, 0, 0, 2]);
    let read = <Game as State>::deserialize(&data).unwrap();
    assert_eq!(State::serialize(&read), Some(data));
    assert_eq!(read.next_player(), Some(Mark::One));
    assert!(<Game as State>::deserialize(&[0, 0, 3, 0, 0, 0, 0, 0, 0]).is_err());
    assert!(<Game as State>::deserialize(&[0; 8]).is_err());
    assert_eq!(<Game as State>::version(), b"TTT");

    let action = Move(2, 1);
    assert_eq!(Action::serialize(&action), vec![2, 1]);
    let read = <Move as Action>::deserialize(&[2, 1]).unwrap();
    assert_eq!((read.0, read.1), (2, 1));
    assert!(<Move as Action>::deserialize(&[2]).is_err());
}

#[test]
fn nonces_and_identifiers_read_back() {
    let nonce: u16 = 0x1234;
    let data = Nonce::serialize(&nonce);
    assert_eq!(data, vec![0x34, 0x12]);
    let mut slice = data.as_slice();
    assert_eq!(<u16 as Nonce>::deserialize(&mut slice), Ok(0x1234));
    assert_eq!(Nonce::next(&u8::MAX), 0);
    assert_eq!(Nonce::next(&-1i32), 0);

    let id = [5u8; 16];
    let data = ID::serialize(&id);
    let mut rest = data.clone();
    rest.push(42);
    let mut slice = rest.as_slice();
    assert_eq!(<[u8; 16] as ID>::deserialize(&mut slice), Ok(id));
    assert_eq!(slice, &[42]);

    let secret = [6u8; 16];
    let data = Secret::serialize(&secret);
    assert_eq!(<[u8; 16] as Secret>::deserialize(&data), Ok(secret));
    let mut longer = data.clone();
    longer.push(0);
    assert!(<[u8; 16] as Secret>::deserialize(&longer).is_err());
}

#[test]
fn store_actions_read_back() {
    let actions: Vec<StoreAction<Move>> = vec![
        StoreAction::new(Move(1, 2)),
        StoreAction::RandomCommit([3; 32]),
        StoreAction::RandomReply(vec![4, 5]),
        StoreAction::RandomReveal(vec![6]),
        StoreAction::Reveal(vec![]),
    ];
    for (tag, action) in actions.iter().enumerate() {
        let data = action.serialize();
        assert_eq!(data[0] as usize, tag);
        assert_eq!(StoreAction::<Move>::deserialize(&data).unwrap().serialize(), data);
    }
    assert!(StoreAction::<Move>::deserialize(&[1, 0]).is_err());
    assert!(StoreAction::<Move>::deserialize(&[5]).is_err());
    assert!(StoreAction::<Move>::deserialize(&[]).is_err());
}

#[test]
fn commit_reveal_settles_randomness() {
    let seed = [0x5au8; 16];
    let reply = vec![0x0fu8; 16];
    let hash = tiny_keccak::keccak256(&seed);

    let phase: Phase<()> = Phase::RandomCommit;
    let step = advance(phase, Some(0), &StoreAction::<Move>::RandomCommit(hash), false).unwrap();
    let phase = match step {
        Step::Next(phase) => phase,
        Step::Seeded(_) => panic!("no seed yet"),
    };
    assert!(advance(
        Phase::RandomCommit::<()>,
        Some(1),
        &StoreAction::<Move>::RandomCommit(hash),
        false
    )
    .is_err());
    let step = advance(phase, Some(1), &StoreAction::<Move>::RandomReply(reply.clone()), false)
        .unwrap();
    let phase = match step {
        Step::Next(phase) => phase,
        Step::Seeded(_) => panic!("no seed yet"),
    };
    match advance(phase, Some(0), &StoreAction::<Move>::RandomReveal(seed.to_vec()), false) {
        Ok(Step::Seeded(settled)) => assert_eq!(settled, [0x55u8; 16]),
        _ => panic!("the seed should settle"),
    }
}

#[test]
fn commit_reveal_refuses_a_wrong_seed() {
    let seed = [1u8; 16];
    let hash = tiny_keccak::keccak256(&seed);
    let phase: Phase<()> = Phase::RandomReveal { hash, owner_hash: false, reply: vec![0; 16] };
    assert!(advance(phase, Some(0), &StoreAction::<Move>::RandomReveal(vec![2; 16]), false).is_err());
    let phase: Phase<()> = Phase::RandomReveal { hash, owner_hash: false, reply: vec![0; 16] };
    match advance(phase, None, &StoreAction::<Move>::RandomReveal(vec![2; 16]), false) {
        Ok(Step::Seeded(settled)) => assert_eq!(settled, [2u8; 16]),
        _ => panic!("the owner's reveal of a player's commitment is not checked"),
    }
    let phase: Phase<()> = Phase::RandomReveal { hash, owner_hash: true, reply: vec![0; 8] };
    assert!(advance(phase, None, &StoreAction::<Move>::RandomReveal(seed.to_vec()), false).is_err());
}

#[test]
fn reveals_need_the_right_player_and_check() {
    let phase: Phase<u8> = Phase::Reveal { random: Some(7), revealer: 1 };
    assert!(advance(phase, Some(0), &StoreAction::<Move>::Reveal(vec![1]), true).is_err());
    let phase: Phase<u8> = Phase::Reveal { random: Some(7), revealer: 1 };
    assert!(advance(phase, Some(1), &StoreAction::<Move>::Reveal(vec![1]), false).is_err());
    let phase: Phase<u8> = Phase::Reveal { random: Some(7), revealer: 1 };
    match advance(phase, Some(1), &StoreAction::<Move>::Reveal(vec![1]), true) {
        Ok(Step::Next(Phase::Idle { random, secret })) => {
            assert_eq!(random, Some(7));
            assert_eq!(secret, Some(vec![1]));
        }
        _ => panic!("the reveal should be taken"),
    }
    assert!(advance(Phase::<u8>::RandomCommit, None, &StoreAction::new(Move(0, 0)), true).is_err());
}

#[test]
fn version_digests_the_concatenation() {
    let contents = vec![b"ab".to_vec(), b"c".to_vec(), vec![]];
    assert_eq!(digest(&contents), tiny_keccak::keccak256(b"abc"));
}

fn key_address(key: &[u8; 32]) -> [u8; 20] {
    address(&public_key(key).unwrap())
}

#[test]
fn proofs_refuse_stale_and_foreign_diffs() {
    let owner = [11u8; 32];
    let keys = [[12u8; 32], [13u8; 32]];
    let players = [key_address(&keys[0]), key_address(&keys[1])];
    let state = ProofState::<Box<Game>>::new([1; 16], players, Box::new(Game::new())).unwrap();
    let root = RootProof::new(state, Vec::new(), &mut |m: &[u8]| sign(m, &owner)).unwrap();
    assert_eq!(root.author(), &key_address(&owner));
    let mut proof = Proof::new(root.clone());

    let play = |player: u8, cell: Move| ProofAction {
        player: Some(player),
        action: PlayerAction::Play(cell),
    };

    let first = proof
        .diff(vec![play(0, Move(0, 0))], &mut |m: &[u8]| sign(m, &keys[0]))
        .unwrap();
    let stale = proof
        .diff(vec![play(0, Move(1, 1))], &mut |m: &[u8]| sign(m, &keys[0]))
        .unwrap();
    proof.apply(&first).unwrap();
    assert_eq!(proof.state().state().next_player(), Some(Mark::Two));
    let error = proof.apply(&stale).unwrap_err();
    assert!(!error.is_hard());

    let stranger = [14u8; 32];
    assert!(proof
        .diff(vec![play(1, Move(1, 1))], &mut |m: &[u8]| sign(m, &stranger))
        .is_err());

    assert!(proof
        .diff(vec![play(0, Move(1, 1))], &mut |m: &[u8]| sign(m, &keys[0]))
        .is_err());

    let data = proof.serialize();
    let mut other = Proof::new(root.clone());
    other.deserialize(&data).unwrap();
    assert_eq!(other.serialize(), data);
    assert_eq!(other.hash(), proof.hash());
    let mut broken = data.clone();
    let last = broken.len() - 1;
    broken[last] ^= 1;
    let mut other = Proof::new(root.clone());
    assert!(other.deserialize(&broken).is_err());
    assert_eq!(other.serialize(), Proof::new(root).serialize());
}

#[test]
fn proof_actions_read_back() {
    let actions: Vec<ProofAction<Box<Game>>> = vec![
        ProofAction { player: None, action: PlayerAction::Play(Move(0, 1)) },
        ProofAction {
            player: Some(1),
            action: PlayerAction::Certify { address: [1; 20], signature: [2; 65] },
        },
        ProofAction {
            player: None,
            action: PlayerAction::Approve { player: [3; 20], subkey: [4; 20], signature: [5; 65] },
        },
    ];
    for action in &actions {
        let data = action.serialize();
        assert_eq!(ProofAction::<Box<Game>>::deserialize(&data).unwrap().serialize(), data);
    }
    assert!(ProofAction::<Box<Game>>::deserialize(&[]).is_err());
}

#[test]
fn store_states_read_back() {
    let data = arcadeum::store::write_store_state(&[9, 8, 7], 1, 2, 0x0102_0304).unwrap();
    assert_eq!(data, vec![9, 8, 7, 1, 0, 0, 0, 2, 0, 0, 0, 4, 3, 2, 1]);
    let (state, actions, reveals, events) = arcadeum::store::read_store_state(&data).unwrap();
    assert_eq!(state, vec![9, 8, 7]);
    assert_eq!((actions, reveals, events), (1, 2, 0x0102_0304));
    assert!(arcadeum::store::read_store_state(&[0; 11]).is_err());
    assert_eq!(
        arcadeum::store::read_store_state(&[0; 12]).unwrap(),
        (vec![], 0, 0, 0)
    );
    assert!(arcadeum::store::write_store_state(&[], 0, usize::MAX, 0).is_none());
}

#[test]
fn secret_knowledge_compares() {
    assert_eq!(SecretKnowledge::Only(1), SecretKnowledge::Only(1));
    assert_ne!(SecretKnowledge::Only(0), SecretKnowledge::Only(1));
    assert_ne!(SecretKnowledge::Both, SecretKnowledge::Neither);
}

fn signed_message(key: &[u8; 32], parent: &[u8; 32], contents: &[u8]) -> Vec<u8> {
    let mut signed = parent.to_vec();
    signed.extend_from_slice(&(contents.len() as u32).to_le_bytes());
    signed.extend_from_slice(contents);
    // Transcript messages are signed over the plain Keccak-256 digest of what follows the
    // signature.
    let digest = secp256k1::Message::parse(&tiny_keccak::keccak256(&signed));
    let (signature, recovery) = secp256k1::sign(&digest, &secp256k1::SecretKey::parse(key).unwrap());
    let mut message = signature.serialize().to_vec();
    message.push(27 + recovery.serialize());
    message.extend_from_slice(&signed);
    message
}

#[test]
fn transcript_messages_are_not_signed_with_the_ethereum_prefix() {
    let key = [23u8; 32];
    let mut signed = [7u8; 32].to_vec();
    signed.extend_from_slice(&5u32.to_le_bytes());
    signed.extend_from_slice(b"hello");
    let mut data = sign(&signed, &key).unwrap().to_vec();
    data.extend_from_slice(&signed);
    let mut cur = data.as_slice();
    match arcadeum::records::Message::new(&mut cur) {
        Ok(message) => assert_ne!(message.author, address(&public_key(&key).unwrap())),
        Err(_) => assert_eq!(cur, data.as_slice()),
    }
}

#[test]
fn transcript_messages_read_back() {
    let key = [21u8; 32];
    let data = signed_message(&key, &[7; 32], b"hello");
    let mut rest = data.clone();
    rest.extend_from_slice(&[1, 2, 3]);
    let mut cur = rest.as_slice();
    let message = arcadeum::records::Message::new(&mut cur).unwrap();
    assert_eq!(message.message, b"hello".to_vec());
    assert_eq!(message.author, address(&public_key(&key).unwrap()));
    assert_eq!(message.parent, [7; 32]);
    assert_eq!(message.hash, tiny_keccak::keccak256(&data));
    assert_eq!(cur, &[1, 2, 3]);

    let mut short = data.as_slice();
    short = &short[..data.len() - 1];
    assert!(arcadeum::records::Message::new(&mut short).is_err());
    assert_eq!(short, &data[..data.len() - 1]);
}

#[test]
fn transcripts_need_the_matchmaker() {
    let key = [22u8; 32];
    let mut contents = vec![0u8; 16];
    contents.extend_from_slice(&[1; 20]);
    contents.extend_from_slice(&[2; 20]);
    let data = signed_message(&key, &[0; 32], &contents);
    assert!(arcadeum::records::prove(&data).is_err());
    assert!(arcadeum::records::prove(&[]).is_err());
}

#[test]
fn match_tallies() {
    assert_eq!(tallies(Outcome::Draw), [Tally::Draw, Tally::Draw]);
    assert_eq!(tallies(Outcome::Won(Mark::One)), [Tally::Win, Tally::Loss]);
    assert_eq!(tallies(Outcome::Won(Mark::Two)), [Tally::Loss, Tally::Win]);
}

#[test]
fn owners_fill_in_for_waiting_players() {
    let seed = [4u8; 16];
    let commit: Option<StoreAction<Move>> = timeout_action(&Phase::<()>::RandomCommit, seed);
    match commit {
        Some(StoreAction::RandomCommit(hash)) => assert_eq!(hash, tiny_keccak::keccak256(&seed)),
        _ => panic!("the owner commits"),
    }
    let reply: Option<StoreAction<Move>> = timeout_action(
        &Phase::<()>::RandomReply { hash: [0; 32], owner_hash: false },
        seed,
    );
    assert!(matches!(reply, Some(StoreAction::RandomReply(s)) if s == seed.to_vec()));
    let reveal: Option<StoreAction<Move>> = timeout_action(
        &Phase::<()>::RandomReveal { hash: [0; 32], owner_hash: true, reply: vec![] },
        seed,
    );
    assert!(reveal.is_none());
    let idle: Option<StoreAction<Move>> =
        timeout_action(&Phase::<()>::Idle { random: None, secret: None }, seed);
    assert!(idle.is_none());
}

#[test]
fn stores_submit_their_part() {
    let seed = [8u8; 16];
    let committed = vec![9u8; 16];
    let hash = tiny_keccak::keccak256(&committed);

    let commit = submission::<(), Move>(&Phase::RandomCommit, Some(0), seed, None, true, false, None, false);
    assert!(matches!(commit, Ok(Some(StoreAction::RandomCommit(h))) if h == tiny_keccak::keccak256(&seed)));
    let other = submission::<(), Move>(&Phase::RandomCommit, Some(1), seed, None, true, false, None, false);
    assert!(matches!(other, Ok(None)));

    let phase = Phase::<()>::RandomReveal { hash, owner_hash: false, reply: vec![0; 16] };
    let reveal = submission::<(), Move>(&phase, Some(0), seed, Some(committed.clone()), true, false, None, false);
    assert!(matches!(reveal, Ok(Some(StoreAction::RandomReveal(ref s))) if *s == committed));
    assert!(submission::<(), Move>(&phase, Some(0), seed, None, true, false, None, false).is_err());
    assert!(submission::<(), Move>(&phase, Some(0), seed, Some(vec![1; 16]), true, false, None, false).is_err());

    let phase = Phase::<()>::Reveal { random: None, revealer: 1 };
    assert!(matches!(
        submission::<(), Move>(&phase, Some(1), seed, None, true, true, Some(vec![5]), true),
        Ok(Some(StoreAction::Reveal(ref s))) if *s == vec![5]
    ));
    assert!(submission::<(), Move>(&phase, Some(1), seed, None, true, true, Some(vec![5]), false).is_err());
    assert!(matches!(
        submission::<(), Move>(&phase, Some(0), seed, None, true, true, Some(vec![5]), true),
        Ok(None)
    ));
}

#[test]
fn signed_leaves_read_back() {
    let elements: Vec<i16> = vec![-2, 0, 300, i16::MIN];
    let tree = MerkleTree::new(elements.clone());
    let read = MerkleTree::<i16>::deserialize(&tree.serialize()).unwrap();
    assert_eq!(read.elements(), &elements);
    assert_eq!(read.root(), tree.root());
    let proof = tree.proof_at(3).unwrap();
    let read = MerkleProof::<i16>::deserialize(&proof.serialize()).unwrap();
    assert_eq!(read.element(), &i16::MIN);
    let tree = MerkleTree::new(vec![-1i64, 7, -9]);
    assert_eq!(
        MerkleTree::<i64>::deserialize(&tree.serialize()).unwrap().elements(),
        &vec![-1i64, 7, -9]
    );
    let tree = MerkleTree::new(vec![-128i8, 127, -1]);
    assert_eq!(MerkleTree::<i8>::deserialize(&tree.serialize()).unwrap().root(), tree.root());
    let tree = MerkleTree::new(vec![i32::MIN, -5, 5]);
    assert_eq!(MerkleTree::<i32>::deserialize(&tree.serialize()).unwrap().root(), tree.root());
}

#[test]
fn signatures_end_with_an_ethereum_recovery_byte() {
    for k in 1u8..6 {
        let key = [k; 32];
        let signature = sign(b"quod erat demonstrandum", &key).unwrap();
        assert_eq!(signature.len(), 65);
        assert!(27 <= signature[64] && signature[64] <= 30);
    }
}
