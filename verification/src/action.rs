//! Attributable state transitions and their binary representation.
use vstd::prelude::*;
use crate::crypto::{Address, Signature};
use crate::traits::{Action, Player, State};
use crate::utils::{copy20, copy65, read_u8, write_u8};

verus! {

/// State transition
#[non_exhaustive]
pub enum PlayerAction<S: State> {
    /// A domain-specific state transition.
    Play(S::Action),
    /// A subkey certification.
    Certify {
        /// The subkey address.
        address: Address,
        /// The signature of the subkey challenge.
        ///
        /// See [State::challenge].
        signature: Signature,
    },
    /// A subkey approval.
    Approve {
        /// The player address.
        player: Address,
        /// The subkey address.
        subkey: Address,
        /// The owner's signature of the subkey approval.
        ///
        /// See [State::approval].
        signature: Signature,
    },
}

/// Attributable state transition
pub struct ProofAction<S: State> {
    /// The player performing the action, or [None] if performed by the root author.
    pub player: Option<Player>,
    /// The action.
    pub action: PlayerAction<S>,
}

impl<S: State> Clone for PlayerAction<S> {
    fn clone(&self) -> (r: Self)
        ensures
            r == *self,
    {
        match self {
            PlayerAction::Play(action) => {
                let copy = action.clone();
                proof {
                    S::Action::lemma_clone(*action, copy);
                }
                PlayerAction::Play(copy)
            },
            PlayerAction::Certify { address, signature } => PlayerAction::Certify {
                address: *address,
                signature: *signature,
            },
            PlayerAction::Approve { player, subkey, signature } => PlayerAction::Approve {
                player: *player,
                subkey: *subkey,
                signature: *signature,
            },
        }
    }
}

impl<S: State> Clone for ProofAction<S> {
    fn clone(&self) -> (r: Self)
        ensures
            r == *self,
    {
        ProofAction { player: self.player, action: self.action.clone() }
    }
}

/// The byte that names who performs an action: `0` for the root author, `1 + player` for a
/// player.
pub open spec fn player_byte(player: Option<Player>) -> u8 {
    match player {
        None => 0,
        Some(p) => (p + 1) as u8,
    }
}

/// Who performs an action, as named by its first byte.
pub open spec fn byte_player(byte: u8) -> Option<Player> {
    if byte == 0 { None } else { Some((byte - 1) as u8) }
}

/// Whether an action's performer can be written as one byte: it is not player `255`.
pub open spec fn action_writable<S: State>(action: ProofAction<S>) -> bool {
    action.player != Some(255u8)
}

/// The binary representation of a state transition: a tag byte (`0` play, `1` certification,
/// `2` approval) and its contents.
pub open spec fn player_action_bytes<S: State>(action: PlayerAction<S>) -> Seq<u8> {
    match action {
        PlayerAction::Play(a) => seq![0u8] + a.spec_serialize(),
        PlayerAction::Certify { address, signature } => seq![1u8] + address@ + signature@,
        PlayerAction::Approve { player, subkey, signature } => seq![2u8] + player@ + subkey@
            + signature@,
    }
}

/// The binary representation of an attributable action: who performs it, then the transition.
pub open spec fn action_bytes<S: State>(action: ProofAction<S>) -> Seq<u8> {
    seq![player_byte(action.player)] + player_action_bytes(action.action)
}

/// Whether `data` is accepted as the binary representation of some action.
pub open spec fn action_accepts<S: State>(data: Seq<u8>) -> bool {
    &&& data.len() >= 2
    &&& {
        let rest = data.skip(2);
        ||| data[1] == 0 && S::Action::spec_deserialize(rest) is Some
        ||| data[1] == 1 && rest.len() == 85
        ||| data[1] == 2 && rest.len() == 105
    }
}

/// Whether `action` is the action read from `data`.
pub open spec fn action_read<S: State>(data: Seq<u8>, action: ProofAction<S>) -> bool {
    &&& data.len() >= 2
    &&& action.player == byte_player(data[0])
    &&& match action.action {
        PlayerAction::Play(a) => data[1] == 0 && S::Action::spec_deserialize(data.skip(2)) == Some(
            a,
        ),
        PlayerAction::Certify { address, signature } => data[1] == 1 && data.skip(2) == address@
            + signature@,
        PlayerAction::Approve { player, subkey, signature } => data[1] == 2 && data.skip(2)
            == player@ + subkey@ + signature@,
    }
}

/// The action read from `data`, if `data` is accepted.
pub open spec fn parse_action<S: State>(data: Seq<u8>) -> Option<ProofAction<S>> {
    if action_accepts::<S>(data) {
        Some(choose|action: ProofAction<S>| action_read(data, action))
    } else {
        None
    }
}

/// At most one action is read from given bytes.
pub proof fn lemma_action_read_unique<S: State>(
    data: Seq<u8>,
    a: ProofAction<S>,
    b: ProofAction<S>,
)
    requires
        action_read(data, a),
        action_read(data, b),
    ensures
        a == b,
{
    let rest = data.skip(2);
    match (a.action, b.action) {
        (PlayerAction::Certify { address: x, signature: y }, PlayerAction::Certify {
            address: u,
            signature: v,
        }) => {
            assert(x@ =~= rest.take(20));
            assert(u@ =~= rest.take(20));
            assert(y@ =~= rest.skip(20));
            assert(v@ =~= rest.skip(20));
            assert(x@ =~= u@ && y@ =~= v@);
            assert(x == u && y == v);
        },
        (PlayerAction::Approve { player: x, subkey: y, signature: z }, PlayerAction::Approve {
            player: u,
            subkey: v,
            signature: w,
        }) => {
            assert(x@ =~= rest.take(20));
            assert(u@ =~= rest.take(20));
            assert(y@ =~= rest.subrange(20, 40));
            assert(v@ =~= rest.subrange(20, 40));
            assert(z@ =~= rest.skip(40));
            assert(w@ =~= rest.skip(40));
            assert(x@ =~= u@ && y@ =~= v@ && z@ =~= w@);
            assert(x == u && y == v && z == w);
        },
        _ => {},
    }
}

/// When `action` is read from `data`, it is the parsed action.
pub proof fn lemma_parse_action<S: State>(data: Seq<u8>, action: ProofAction<S>)
    requires
        action_read(data, action),
    ensures
        parse_action::<S>(data) == Some(action),
{
    let rest = data.skip(2);
    match action.action {
        PlayerAction::Certify { address, signature } => {
            assert(rest.len() == 85);
        },
        PlayerAction::Approve { player, subkey, signature } => {
            assert(rest.len() == 105);
        },
        _ => {},
    }
    let chosen = choose|a: ProofAction<S>| action_read(data, a);
    lemma_action_read_unique(data, action, chosen);
}

/// Reading the binary representation of an action gives back the action.
pub proof fn lemma_action_roundtrip<S: State>(action: ProofAction<S>)
    requires
        action_writable(action),
    ensures
        parse_action::<S>(action_bytes(action)) == Some(action),
{
    let data = action_bytes(action);
    let rest = data.skip(2);
    match action.action {
        PlayerAction::Play(a) => {
            S::Action::lemma_roundtrip(a);
            assert(rest =~= a.spec_serialize());
        },
        PlayerAction::Certify { address, signature } => {
            assert(rest =~= address@ + signature@);
        },
        PlayerAction::Approve { player, subkey, signature } => {
            assert(rest =~= player@ + subkey@ + signature@);
        },
    }
    lemma_parse_action(data, action);
}

impl<S: State> ProofAction<S> {
    /// Constructs an action from its binary representation.
    ///
    /// `data` must have been constructed using [ProofAction::serialize].
    pub fn deserialize(data: &[u8]) -> (r: Result<Self, String>)
        ensures
            r is Ok <==> action_accepts::<S>(data@),
            r matches Ok(action) ==> action_read(data@, action) && parse_action::<S>(data@) == Some(
                action,
            ),
    {
        let mut cur = data;
        let byte = read_u8(&mut cur)?;
        let player = if byte == 0 { None } else { Some(byte - 1) };
        let tag = read_u8(&mut cur)?;
        proof {
            assert(cur@ =~= data@.skip(2));
        }
        let action = if tag == 0 {
            PlayerAction::Play(S::Action::deserialize(cur)?)
        } else if tag == 1 {
            if cur.len() != 85 {
                return Err("data.len() != size_of::<Address>() + size_of::<Signature>()".to_owned());
            }
            let (address, signature) = cur.split_at(20);
            let address = copy20(address);
            let signature = copy65(signature);
            assert(cur@ =~= address@ + signature@);
            PlayerAction::Certify { address, signature }
        } else if tag == 2 {
            if cur.len() != 105 {
                return Err(
                    "data.len() != 2 * size_of::<Address>() + size_of::<Signature>()".to_owned(),
                );
            }
            let (owner, tail) = cur.split_at(20);
            let (subkey, signature) = tail.split_at(20);
            let owner = copy20(owner);
            let subkey = copy20(subkey);
            let signature = copy65(signature);
            assert(cur@ =~= owner@ + subkey@ + signature@);
            PlayerAction::Approve { player: owner, subkey, signature }
        } else {
            return Err("unknown action tag".to_owned());
        };
        let result = ProofAction { player, action };
        proof {
            lemma_parse_action(data@, result);
        }
        Ok(result)
    }

    /// Generates a binary representation that can be used to reconstruct the action.
    ///
    /// See [ProofAction::deserialize].
    pub fn serialize(&self) -> (r: Vec<u8>)
        requires
            action_writable(*self),
        ensures
            r@ == action_bytes(*self),
    {
        let mut data: Vec<u8> = Vec::new();
        match self.player {
            None => write_u8(&mut data, 0),
            Some(player) => write_u8(&mut data, 1 + player),
        }
        match &self.action {
            PlayerAction::Play(action) => {
                write_u8(&mut data, 0);
                let bytes = action.serialize();
                data.extend_from_slice(bytes.as_slice());
            },
            PlayerAction::Certify { address, signature } => {
                write_u8(&mut data, 1);
                data.extend_from_slice(address.as_slice());
                data.extend_from_slice(signature.as_slice());
            },
            PlayerAction::Approve { player, subkey, signature } => {
                write_u8(&mut data, 2);
                data.extend_from_slice(player.as_slice());
                data.extend_from_slice(subkey.as_slice());
                data.extend_from_slice(signature.as_slice());
            },
        }
        assert(data@ =~= action_bytes(*self));
        data
    }
}

} // verus!
