//! Setting up a game for testing: the owner approves a subkey for each player, and signs the
//! root proof that starts the game with those approvals and the given actions.
use vstd::prelude::*;
use vstd::string::*;
use vstd::utf8::encode_utf8;
use crate::action::{PlayerAction, ProofAction};
use crate::authenticated::{apply_all, root_message, RootProof};
use crate::crypto::{
    address, address_spec, public_key, recover_spec, secp256k1_public_key_spec, sign, sign_spec,
    Address, SecretKey, Signature,
};
use crate::proof_state::{state_serializable, ProofState};
use crate::traits::{approval_text, State};

verus! {

/// The address of the key pair of a secret key, if the key is valid.
pub open spec fn key_address(secret: Seq<u8>) -> Option<Seq<u8>> {
    match secp256k1_public_key_spec(secret) {
        Some(public) => Some(address_spec(public)),
        None => None,
    }
}

/// Whether `a` is the owner's approval, signed with `owner`, of the subkey `subkey` acting for
/// the player whose key is `player`.
pub open spec fn is_approval<S: State>(a: ProofAction<S>, owner: Seq<u8>, player: Seq<u8>, subkey: Seq<u8>) -> bool {
    &&& a.player is None
    &&& a.action matches PlayerAction::Approve { player: p, subkey: k, signature } && {
        &&& key_address(player) == Some(p@)
        &&& key_address(subkey) == Some(k@)
        &&& sign_spec(encode_utf8(approval_text(p@, k@)), owner) == Some(signature@)
    }
}

/// The address of a secret key's key pair.
fn key_address_of(secret: &SecretKey) -> (r: Result<Address, String>)
    ensures
        match r {
            Ok(a) => key_address(secret@) == Some(a@),
            Err(_) => key_address(secret@) is None,
        },
{
    let public = public_key(secret)?;
    Ok(address(&public))
}

/// The owner's approval, signed with `owner`, of subkey `subkey` acting for the player whose key
/// is `player`.
fn approval<S: State>(owner: &SecretKey, player: &SecretKey, subkey: &SecretKey) -> (r: Result<
    ProofAction<S>,
    String,
>)
    ensures
        r matches Ok(a) ==> is_approval(a, owner@, player@, subkey@),
        r is Err <==> (key_address(player@) is None || key_address(subkey@) is None
            || secp256k1_public_key_spec(owner@) is None),
{
    let player_address = key_address_of(player)?;
    let subkey_address = key_address_of(subkey)?;
    let text = S::approval(&player_address, &subkey_address);
    let signature: Signature = sign(text.as_str().as_bytes(), owner)?;
    Ok(ProofAction {
        player: None,
        action: PlayerAction::Approve { player: player_address, subkey: subkey_address, signature },
    })
}

/// Builds the owner's approvals of the players' subkeys: the first approves `subkeys[0]` for the
/// player whose key is `players[0]`, the second `subkeys[1]` for `players[1]`, both signed with
/// `owner`. Fails exactly when one of the keys is not a valid secret key.
pub fn tester_approvals<S: State>(
    owner: &SecretKey,
    players: &[SecretKey; 2],
    subkeys: &[SecretKey; 2],
) -> (r: Result<Vec<ProofAction<S>>, String>)
    ensures
        r is Err <==> (secp256k1_public_key_spec(owner@) is None || key_address(players[0]@) is None
            || key_address(players[1]@) is None || key_address(subkeys[0]@) is None
            || key_address(subkeys[1]@) is None),
        r matches Ok(v) ==> {
            &&& v@.len() == 2
            &&& is_approval(v@[0], owner@, players[0]@, subkeys[0]@)
            &&& is_approval(v@[1], owner@, players[1]@, subkeys[1]@)
        },
{
    let first = approval::<S>(owner, &players[0], &subkeys[0])?;
    let second = approval::<S>(owner, &players[1], &subkeys[1])?;
    let mut v: Vec<ProofAction<S>> = Vec::new();
    v.push(first);
    v.push(second);
    Ok(v)
}

/// The consensus states a test game can start from: identifier `id`, the players whose keys are
/// `players`, no certification or approval yet, and the domain-specific state `state`.
pub open spec fn starts_game<S: State>(p: crate::proof_state::ProofStateView<S>, id: S::ID, players: [SecretKey; 2], state: S) -> bool {
    &&& p.wf()
    &&& p.id == id
    &&& key_address(players[0]@) == Some(p.players[0]@)
    &&& key_address(players[1]@) == Some(p.players[1]@)
    &&& p.signatures.len() == 0
    &&& p.approvals.len() == 0
    &&& p.state == state
}

/// Starts a game for testing: a consensus state with identifier `id`, the players whose keys are
/// `players` and the domain-specific state `state`, then the owner's approvals of `subkeys` for
/// the players (see [tester_approvals]) followed by `actions`, in a root proof signed with
/// `owner`.
///
/// Fails when a key is not a valid secret key, when `state` has no binary representation, or
/// when the actions do not apply or do not fit their 32-bit lengths; on success the root proof is
/// signed by the owner's key over the state the actions reach.
#[verifier::rlimit(60)]
pub fn tester_root<S: State>(
    id: S::ID,
    state: S,
    owner: &SecretKey,
    players: &[SecretKey; 2],
    subkeys: &[SecretKey; 2],
    actions: Vec<ProofAction<S>>,
) -> (r: Result<RootProof<S>, String>)
    requires
        S::spec_version().len() <= u32::MAX,
    ensures
        r matches Ok(root) ==> {
            &&& root@.wf()
            &&& key_address(owner@) == Some(root@.author@)
            &&& exists|p: crate::proof_state::ProofStateView<S>, approvals: Seq<ProofAction<S>>| {
                &&& starts_game(p, id, *players, state)
                &&& approvals.len() == 2
                &&& is_approval(approvals[0], owner@, players[0]@, subkeys[0]@)
                &&& is_approval(approvals[1], owner@, players[1]@, subkeys[1]@)
                &&& #[trigger] apply_all(p, approvals + actions@) == Some(root@.latest)
            }
        },
        r is Err ==> {
            ||| key_address(owner@) is None
            ||| key_address(players[0]@) is None
            ||| key_address(players[1]@) is None
            ||| key_address(subkeys[0]@) is None
            ||| key_address(subkeys[1]@) is None
            ||| state.spec_serialize() is None
            ||| exists|p: crate::proof_state::ProofStateView<S>, approvals: Seq<ProofAction<S>>| {
                &&& starts_game(p, id, *players, state)
                &&& approvals.len() == 2
                &&& is_approval(approvals[0], owner@, players[0]@, subkeys[0]@)
                &&& is_approval(approvals[1], owner@, players[1]@, subkeys[1]@)
                &&& (#[trigger] apply_all(p, approvals + actions@) is None
                    || !crate::authenticated::root_fits(p, approvals + actions@))
            }
        },
{
    let player0 = key_address_of(&players[0])?;
    let player1 = key_address_of(&players[1])?;
    let initial = ProofState::new(id, [player0, player1], state)?;
    let mut all = tester_approvals::<S>(owner, players, subkeys)?;
    let ghost approvals = all@;
    let mut rest = actions;
    all.append(&mut rest);
    let ghost start = initial@;
    assert(all@ == approvals + actions@);
    let mut signer = |m: &[u8]| -> (out: Result<Signature, String>)
        ensures
            out matches Ok(signature) ==> secp256k1_public_key_spec(owner@) matches Some(public)
                && recover_spec(m@, signature@) == Some(address_spec(public)),
            out is Err ==> secp256k1_public_key_spec(owner@) is None,
        { sign(m, owner) };
    let ghost signer0 = signer;
    let root = RootProof::new(initial, all, &mut signer);
    proof {
        assert(starts_game(start, id, *players, state));
    }
    match root {
        Ok(root) => {
            proof {
                assert(apply_all(start, approvals + actions@) == Some(root@.latest));
                crate::authenticated::lemma_root_signature(root);
                let m = root_message(root@);
                let out = Ok::<Signature, String>(crate::proof_state::array65(root@.signature));
                assert(crate::authenticated::signs_as(signer0, m, out));
                let x = choose|x: &[u8]| x@ == m && #[trigger] call_ensures(signer0, (x,), out);
                assert(call_ensures(signer0, (x,), out));
            }
            Ok(root)
        },
        Err(e) => {
            proof {
                let full = approvals + actions@;
                if apply_all(start, full) is Some && crate::authenticated::root_fits(start, full) {
                    let m = crate::authenticated::root_message_of(start, full);
                    let out = choose|out: Result<Signature, String>|
                        #[trigger] crate::authenticated::signs_as(signer0, m, out) && (
                        out matches Ok(signature) ==> recover_spec(m, signature@) is None);
                    let x = choose|x: &[u8]| x@ == m && #[trigger] call_ensures(signer0, (x,), out);
                    assert(call_ensures(signer0, (x,), out));
                    assert(secp256k1_public_key_spec(owner@) is None);
                }
            }
            Err(e)
        },
    }
}

// ---------------------------------------------------------------------------
// Test keys
// ---------------------------------------------------------------------------

/// The first `n` bytes that a xorshift generator seeded with `seed` fills a buffer of `n` bytes
/// with.
pub uninterp spec fn xorshift_bytes(seed: Seq<u8>, n: nat) -> Seq<u8>;

/// Calls `rand_xorshift::XorShiftRng::from_seed` on `seed` and `fill_bytes` of the generator on
/// a buffer of `n` zero bytes. Claimed of it: the bytes are named by [xorshift_bytes], a function
/// of the seed and the length alone, and there are `n` of them.
#[verifier::external_body]
fn xorshift_fill(seed: &[u8; 16], n: usize) -> (r: Vec<u8>)
    ensures
        r@ == xorshift_bytes(seed@, n as nat),
        r@.len() == n,
{
    let mut random = <rand_xorshift::XorShiftRng as rand::SeedableRng>::from_seed(*seed);
    let mut bytes = vec![0u8; n];
    rand::RngCore::fill_bytes(&mut random, &mut bytes);
    bytes
}

/// How many 32-byte blocks a key is drawn from before giving up.
pub const KEY_TRIES: usize = 64;

/// Block `i` of 32 bytes that the generator seeded with `seed` gives.
pub open spec fn key_block(seed: Seq<u8>, i: nat) -> Seq<u8> {
    xorshift_bytes(seed, 32 * (i + 1)).skip(32 * i as int)
}

/// The first block, from block `start` on and among `tries` of them, that is a valid secret
/// key.
pub open spec fn first_valid(seed: Seq<u8>, start: nat, tries: nat) -> Option<nat>
    decreases tries,
{
    if tries == 0 {
        None
    } else if secp256k1_public_key_spec(key_block(seed, start)) is Some {
        Some(start)
    } else {
        first_valid(seed, start + 1, (tries - 1) as nat)
    }
}

/// Draws a secret key, as a secp256k1 key is drawn, from the generator seeded with `seed`,
/// starting at block `start`: the first block of 32 bytes that is a valid key. Gives the key and
/// the next block; fails when none of [KEY_TRIES] blocks is valid.
pub fn draw_key(seed: &[u8; 16], start: usize) -> (r: Result<(SecretKey, usize), String>)
    requires
        start <= 0x100_0000,
    ensures
        match first_valid(seed@, start as nat, KEY_TRIES as nat) {
            Some(i) => r matches Ok((key, next)) && next == i + 1 && key@ == key_block(seed@, i),
            None => r is Err,
        },
        r matches Ok((_, next)) ==> next <= start + KEY_TRIES,
{
    let mut i: usize = start;
    while i < start + KEY_TRIES
        invariant
            start <= i <= start + KEY_TRIES,
            start <= 0x100_0000,
            first_valid(seed@, start as nat, KEY_TRIES as nat) == first_valid(
                seed@,
                i as nat,
                (start + KEY_TRIES - i) as nat,
            ),
        decreases start + KEY_TRIES - i,
    {
        let bytes = xorshift_fill(seed, 32 * (i + 1));
        let mut key = [0u8; 32];
        let mut j: usize = 0;
        while j < 32
            invariant
                j <= 32,
                i < start + KEY_TRIES,
                start <= 0x100_0000,
                bytes@.len() == 32 * (i + 1),
                forall|k: int| 0 <= k < j ==> key@[k] == bytes@[32 * i + k],
            decreases 32 - j,
        {
            key[j] = bytes[32 * i + j];
            j = j + 1;
        }
        proof {
            assert(key@ =~= key_block(seed@, i as nat));
        }
        if public_key(&key).is_ok() {
            return Ok((key, i + 1));
        }
        i = i + 1;
    }
    Err("no valid secret key was drawn".to_owned())
}

/// The seed of the generator a test game draws a party's keys from: `0` bytes for the owner, `1`
/// for the first player and `2` for the second.
pub open spec fn party_seed(party: u8) -> Seq<u8> {
    Seq::new(16, |i: int| party)
}

/// The keys of a test game: the owner's key, then each player's key and then its subkey, drawn
/// in turn from that party's generator (see [draw_key]).
pub open spec fn tester_keys_spec() -> Option<(Seq<Seq<u8>>, Seq<Seq<u8>>)> {
    let t = KEY_TRIES as nat;
    match (
        first_valid(party_seed(0), 0, t),
        first_valid(party_seed(1), 0, t),
        first_valid(party_seed(2), 0, t),
    ) {
        (Some(o), Some(a), Some(b)) => match (
            first_valid(party_seed(1), a + 1, t),
            first_valid(party_seed(2), b + 1, t),
        ) {
            (Some(sa), Some(sb)) => Some(
                (
                    seq![key_block(party_seed(0), o), key_block(party_seed(1), a), key_block(party_seed(2), b)],
                    seq![key_block(party_seed(1), sa), key_block(party_seed(2), sb)],
                ),
            ),
            _ => None,
        },
        _ => None,
    }
}

/// Draws the keys of a test game: see [tester_keys_spec].
pub fn tester_keys() -> (r: Result<([SecretKey; 3], [SecretKey; 2]), String>)
    ensures
        match tester_keys_spec() {
            Some((keys, subkeys)) => r matches Ok((k, s)) && seq![k[0]@, k[1]@, k[2]@] == keys
                && seq![s[0]@, s[1]@] == subkeys,
            None => r is Err,
        },
{
    let s0 = [0u8; 16];
    let s1 = [1u8; 16];
    let s2 = [2u8; 16];
    proof {
        assert(s0@ =~= party_seed(0));
        assert(s1@ =~= party_seed(1));
        assert(s2@ =~= party_seed(2));
    }
    let (owner, _) = draw_key(&s0, 0)?;
    let (first, next1) = draw_key(&s1, 0)?;
    let (second, next2) = draw_key(&s2, 0)?;
    let (subkey1, _) = draw_key(&s1, next1)?;
    let (subkey2, _) = draw_key(&s2, next2)?;
    Ok(([owner, first, second], [subkey1, subkey2]))
}

/// Starts a test game with the keys of [tester_keys]: see [tester_root].
pub fn tester_game<S: State>(id: S::ID, state: S, actions: Vec<ProofAction<S>>) -> (r: Result<
    RootProof<S>,
    String,
>)
    requires
        S::spec_version().len() <= u32::MAX,
    ensures
        tester_keys_spec() is None ==> r is Err,
        r matches Ok(root) ==> root@.wf() && (tester_keys_spec() matches Some((keys, _))
            && key_address(keys[0]) == Some(root@.author@)),
{
    let (keys, subkeys) = tester_keys()?;
    tester_root(id, state, &keys[0], &[keys[1], keys[2]], &subkeys, actions)
}

} // verus!
