use arcadeum::crypto::{address, public_key, sign, Address, SecretKey};
use arcadeum::game::{Move, State as TTT};
use arcadeum::utils::hex;
use arcadeum::{Player, PlayerAction, Proof, ProofAction, ProofState, RootProof, State};
use rand::{RngCore, SeedableRng};
use std::convert::TryInto;

fn random_key<R: RngCore>(random: &mut R) -> SecretKey {
    let mut key = [0u8; 32];
    random.fill_bytes(&mut key);
    key
}

fn key_address(key: &SecretKey) -> Address {
    address(&public_key(key).unwrap())
}

fn round_trip(root: &RootProof<Box<TTT>>, data: &Vec<u8>) -> Vec<u8> {
    let mut proof = Proof::new(root.clone());
    proof.deserialize(data).unwrap();
    proof.serialize()
}

/// Plays a whole game: certifies both players' subkeys, then makes the moves, checking after
/// each diff that the proof reads back as written.
fn play(owner: &SecretKey, keys: &[SecretKey; 2], subkeys: &[SecretKey; 2], id: [u8; 16]) {
    let players = [key_address(&keys[0]), key_address(&keys[1])];

    let state = ProofState::<Box<TTT>>::new(id, players, Box::new(TTT::new())).unwrap();

    let root = RootProof::new(state, Vec::new(), &mut |message: &[u8]| sign(message, owner)).unwrap();

    println!("root = {}\n", hex(&root.serialize()));

    assert_eq!(
        root.serialize(),
        RootProof::<Box<TTT>>::deserialize(&root.serialize())
            .unwrap()
            .serialize()
    );

    let mut proof = Proof::new(root.clone());

    println!("proof = {}\n", hex(&proof.serialize()));

    let data = proof.serialize();

    assert_eq!(data, round_trip(&root, &data));

    for (i, key) in keys.iter().enumerate() {
        let address = key_address(&subkeys[i]);

        let action = ProofAction {
            player: Some(i.try_into().unwrap()),
            action: PlayerAction::Certify {
                address,
                signature: sign(<Box<TTT> as State>::challenge(&address).as_bytes(), key).unwrap(),
            },
        };

        let diff = proof
            .diff(vec![action], &mut |message: &[u8]| sign(message, key))
            .unwrap();

        proof.apply(&diff).unwrap();

        println!("diff = {}\nproof = {}\n", hex(&diff.serialize()), hex(&proof.serialize()));

        let data = proof.serialize();

        assert_eq!(data, round_trip(&root, &data));
    }

    let mut apply = |player: Player, action: Move| {
        let action = ProofAction {
            player: Some(player),
            action: PlayerAction::Play(action),
        };

        let diff = proof
            .diff(vec![action], &mut |message: &[u8]| {
                sign(message, &subkeys[usize::from(player)])
            })
            .unwrap();

        proof.apply(&diff).unwrap();

        println!("diff = {}\nproof = {}\n", hex(&diff.serialize()), hex(&proof.serialize()));

        let data = proof.serialize();

        assert_eq!(data, round_trip(&root, &data));
    };

    apply(0, Move(0, 0));
    apply(1, Move(1, 1));
    apply(0, Move(2, 2));
    apply(1, Move(0, 2));
    apply(0, Move(2, 0));
    apply(1, Move(1, 0));
    apply(0, Move(2, 1));
}

#[test]
fn test_ttt() {
    let mut random = rand::thread_rng();

    let owner = random_key(&mut random);
    let secrets = [random_key(&mut random), random_key(&mut random)];
    let subkeys = [random_key(&mut random), random_key(&mut random)];

    let mut id = [0u8; 16];
    random.fill_bytes(&mut id);

    play(&owner, &secrets, &subkeys, id);
}

#[test]
fn ttt_test_ttt() {
    let mut randoms = [
        rand_xorshift::XorShiftRng::from_seed([1; 16]),
        rand_xorshift::XorShiftRng::from_seed([2; 16]),
        rand_xorshift::XorShiftRng::from_seed([3; 16]),
    ];

    let keys = [
        random_key(&mut randoms[0]),
        random_key(&mut randoms[1]),
        random_key(&mut randoms[2]),
    ];
    let subkeys = [random_key(&mut randoms[1]), random_key(&mut randoms[2])];

    let mut id = [0u8; 16];
    randoms[0].try_fill_bytes(&mut id).unwrap();

    play(&keys[0], &[keys[1], keys[2]], &subkeys, id);
}
