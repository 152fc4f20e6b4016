//! The client store layer: its actions and their binary representation, the commit-reveal
//! exchanges that a pending transition waits on, the store's state machine (ready, or pending
//! on an exchange), the actions a store sends when flushing, and the binary representation of
//! what a store keeps between sessions.
//!
//! A domain-specific transition runs outside the library: the library decides what each store
//! action does to the store's state ([store_step]), what a store sends ([flush_actions]), and
//! what becomes of the state when the transition finishes ([store_settle]).
use vstd::prelude::*;
use crate::crypto::{keccak256, keccak256_spec};
use crate::traits::{cbor_array16_read, cbor_decode_array16, cbor_encode_array16, Action, Player};
use crate::utils::{
    copy32, framed, le_u32_bytes, le_u32_value, lemma_le_u32_roundtrip, parse_one, read_framed,
    read_u32_usize, read_u8, read_u8_bool, write_framed, write_u32_usize, write_u8,
    write_u8_bool,
};

verus! {

/// Which players' secrets are known.
#[derive(PartialEq, Eq, Structural, Clone, Copy, Debug)]
pub enum SecretKnowledge {
    /// Both players' secrets.
    Both,
    /// No secret.
    Neither,
    /// Only the given player's secret.
    Only(Player),
}

/// Domain-specific store state secret trait
pub trait Secret: Clone + Sized {
    /// The binary representation of the secret.
    spec fn spec_serialize(&self) -> Seq<u8>;

    /// The secret represented by `data`, if any.
    spec fn spec_deserialize(data: Seq<u8>) -> Option<Self>;

    /// Constructs a state secret from its binary representation.
    ///
    /// `data` must have been constructed using [Secret::serialize].
    fn deserialize(data: &[u8]) -> (r: Result<Self, String>)
        ensures
            match Self::spec_deserialize(data@) {
                Some(secret) => r matches Ok(v) && v == secret,
                None => r is Err,
            },
    ;

    /// Generates a binary representation that can be used to reconstruct the state secret.
    ///
    /// See [Secret::deserialize].
    fn serialize(&self) -> (r: Vec<u8>)
        ensures
            r@ == self.spec_serialize(),
            Self::spec_deserialize(r@) == Some(*self),
    ;
}

/// A sixteen-byte secret, written in CBOR.
impl Secret for [u8; 16] {
    open spec fn spec_serialize(&self) -> Seq<u8> {
        crate::traits::cbor_array16_bytes(self@)
    }

    open spec fn spec_deserialize(data: Seq<u8>) -> Option<Self> {
        match cbor_array16_read(data) {
            Some((secret, n)) => if n == data.len() {
                Some(secret)
            } else {
                None
            },
            None => None,
        }
    }

    fn deserialize(data: &[u8]) -> (r: Result<Self, String>) {
        match cbor_decode_array16(data) {
            Some((secret, n)) => if n == data.len() {
                Ok(secret)
            } else {
                Err("trailing data".to_owned())
            },
            None => Err("invalid CBOR secret".to_owned()),
        }
    }

    fn serialize(&self) -> (r: Vec<u8>) {
        let r = cbor_encode_array16(self);
        proof {
            assert(r@ + seq![] =~= r@);
        }
        r
    }
}

// ---------------------------------------------------------------------------
// Store actions
// ---------------------------------------------------------------------------

/// Client store state transition
pub enum StoreAction<A: Action> {
    /// A domain-specific state transition.
    Play(A),
    /// The commitment to a random seed: its digest.
    RandomCommit(crate::crypto::Hash),
    /// The reply to a commitment: a random seed.
    RandomReply(Vec<u8>),
    /// The committed seed, revealed.
    RandomReveal(Vec<u8>),
    /// A revealed part of a player's secret.
    Reveal(Vec<u8>),
}

/// The model of a store action.
pub enum StoreActionView<A: Action> {
    Play(A),
    RandomCommit(Seq<u8>),
    RandomReply(Seq<u8>),
    RandomReveal(Seq<u8>),
    Reveal(Seq<u8>),
}

impl<A: Action> View for StoreAction<A> {
    type V = StoreActionView<A>;

    open spec fn view(&self) -> StoreActionView<A> {
        match self {
            StoreAction::Play(a) => StoreActionView::Play(*a),
            StoreAction::RandomCommit(h) => StoreActionView::RandomCommit(h@),
            StoreAction::RandomReply(r) => StoreActionView::RandomReply(r@),
            StoreAction::RandomReveal(s) => StoreActionView::RandomReveal(s@),
            StoreAction::Reveal(s) => StoreActionView::Reveal(s@),
        }
    }
}

/// The binary representation of a store action: a tag byte (`0` to `4` in the order of the
/// variants), then the domain-specific action's representation, the digest, or the bytes.
pub open spec fn store_action_bytes<A: Action>(a: StoreActionView<A>) -> Seq<u8> {
    match a {
        StoreActionView::Play(x) => seq![0u8] + x.spec_serialize(),
        StoreActionView::RandomCommit(h) => seq![1u8] + h,
        StoreActionView::RandomReply(r) => seq![2u8] + r,
        StoreActionView::RandomReveal(s) => seq![3u8] + s,
        StoreActionView::Reveal(s) => seq![4u8] + s,
    }
}

/// The store action that `data` represents, if any: a digest must be exactly 32 bytes.
pub open spec fn parse_store_action<A: Action>(data: Seq<u8>) -> Option<StoreActionView<A>> {
    if data.len() == 0 {
        None
    } else {
        let rest = data.drop_first();
        if data[0] == 0 {
            match A::spec_deserialize(rest) {
                Some(x) => Some(StoreActionView::Play(x)),
                None => None,
            }
        } else if data[0] == 1 {
            if rest.len() == 32 {
                Some(StoreActionView::RandomCommit(rest))
            } else {
                None
            }
        } else if data[0] == 2 {
            Some(StoreActionView::RandomReply(rest))
        } else if data[0] == 3 {
            Some(StoreActionView::RandomReveal(rest))
        } else if data[0] == 4 {
            Some(StoreActionView::Reveal(rest))
        } else {
            None
        }
    }
}

impl<A: Action> StoreAction<A> {
    /// Constructs a new store state transition.
    pub fn new(action: A) -> (r: Self)
        ensures
            r@ == StoreActionView::Play(action),
    {
        StoreAction::Play(action)
    }

    /// Constructs a store action from its binary representation.
    ///
    /// `data` must have been constructed using [StoreAction::serialize].
    pub fn deserialize(data: &[u8]) -> (r: Result<Self, String>)
        ensures
            match parse_store_action::<A>(data@) {
                Some(v) => r matches Ok(x) && x@ == v,
                None => r is Err,
            },
    {
        let mut rest = data;
        let tag = read_u8(&mut rest)?;
        proof {
            assert(rest@ == data@.drop_first());
        }
        if tag == 0 {
            Ok(StoreAction::Play(A::deserialize(rest)?))
        } else if tag == 1 {
            if rest.len() != 32 {
                return Err("data.len() != size_of::<Hash>()".to_owned());
            }
            Ok(StoreAction::RandomCommit(copy32(rest)))
        } else if tag == 2 {
            Ok(StoreAction::RandomReply(vstd::slice::slice_to_vec(rest)))
        } else if tag == 3 {
            Ok(StoreAction::RandomReveal(vstd::slice::slice_to_vec(rest)))
        } else if tag == 4 {
            Ok(StoreAction::Reveal(vstd::slice::slice_to_vec(rest)))
        } else {
            Err("unknown store action tag".to_owned())
        }
    }

    /// Generates a binary representation that can be used to reconstruct the store action.
    ///
    /// See [StoreAction::deserialize].
    pub fn serialize(&self) -> (r: Vec<u8>)
        ensures
            r@ == store_action_bytes(self@),
    {
        let mut data: Vec<u8> = Vec::new();
        match self {
            StoreAction::Play(action) => {
                write_u8(&mut data, 0);
                let bytes = action.serialize();
                data.extend_from_slice(bytes.as_slice());
            },
            StoreAction::RandomCommit(hash) => {
                write_u8(&mut data, 1);
                data.extend_from_slice(hash.as_slice());
            },
            StoreAction::RandomReply(reply) => {
                write_u8(&mut data, 2);
                data.extend_from_slice(reply.as_slice());
            },
            StoreAction::RandomReveal(seed) => {
                write_u8(&mut data, 3);
                data.extend_from_slice(seed.as_slice());
            },
            StoreAction::Reveal(secret) => {
                write_u8(&mut data, 4);
                data.extend_from_slice(secret.as_slice());
            },
        }
        assert(data@ =~= store_action_bytes(self@));
        data
    }
}

/// Reading a store action's binary representation gives back the store action.
pub proof fn lemma_store_action_roundtrip<A: Action>(a: StoreActionView<A>)
    requires
        a matches StoreActionView::RandomCommit(h) ==> h.len() == 32,
    ensures
        parse_store_action::<A>(store_action_bytes(a)) == Some(a),
{
    let bytes = store_action_bytes(a);
    match a {
        StoreActionView::Play(x) => {
            A::lemma_roundtrip(x);
            assert(bytes.drop_first() =~= x.spec_serialize());
        },
        StoreActionView::RandomCommit(h) => {
            assert(bytes.drop_first() =~= h);
        },
        StoreActionView::RandomReply(r) => {
            assert(bytes.drop_first() =~= r);
        },
        StoreActionView::RandomReveal(s) => {
            assert(bytes.drop_first() =~= s);
        },
        StoreActionView::Reveal(s) => {
            assert(bytes.drop_first() =~= s);
        },
    }
}


// ---------------------------------------------------------------------------
// Commit-reveal exchanges
// ---------------------------------------------------------------------------

/// The exchange that a pending transition waits on. `R` is the random number generator that
/// settled randomness is drawn from; the exchange only passes it on.
pub enum Phase<R> {
    /// Nothing is awaited: the randomness settled so far, and the secret part last revealed.
    Idle { random: Option<R>, secret: Option<Vec<u8>> },
    /// Randomness is requested: a commitment to a seed is awaited.
    RandomCommit,
    /// A reply to the commitment is awaited; `owner_hash` tells whether the owner committed.
    RandomReply { hash: crate::crypto::Hash, owner_hash: bool },
    /// The committed seed is awaited.
    RandomReveal { hash: crate::crypto::Hash, owner_hash: bool, reply: Vec<u8> },
    /// Part of `revealer`'s secret is awaited.
    Reveal { random: Option<R>, revealer: Player },
}

/// The model of an exchange.
pub enum PhaseView<R> {
    Idle { random: Option<R>, secret: Option<Seq<u8>> },
    RandomCommit,
    RandomReply { hash: Seq<u8>, owner_hash: bool },
    RandomReveal { hash: Seq<u8>, owner_hash: bool, reply: Seq<u8> },
    Reveal { random: Option<R>, revealer: Player },
}

impl<R> View for Phase<R> {
    type V = PhaseView<R>;

    open spec fn view(&self) -> PhaseView<R> {
        match self {
            Phase::Idle { random, secret } => PhaseView::Idle {
                random: *random,
                secret: match secret {
                    Some(v) => Some(v@),
                    None => None,
                },
            },
            Phase::RandomCommit => PhaseView::RandomCommit,
            Phase::RandomReply { hash, owner_hash } => PhaseView::RandomReply {
                hash: hash@,
                owner_hash: *owner_hash,
            },
            Phase::RandomReveal { hash, owner_hash, reply } => PhaseView::RandomReveal {
                hash: hash@,
                owner_hash: *owner_hash,
                reply: reply@,
            },
            Phase::Reveal { random, revealer } => PhaseView::Reveal {
                random: *random,
                revealer: *revealer,
            },
        }
    }
}

/// What an exchange becomes after a store action.
pub enum Step<R> {
    /// The next phase.
    Next(Phase<R>),
    /// Randomness is settled: the exchange is idle, with a generator seeded by this seed.
    Seeded([u8; 16]),
}

/// The model of a step.
pub enum StepView<R> {
    Next(PhaseView<R>),
    Seeded(Seq<u8>),
}

impl<R> View for Step<R> {
    type V = StepView<R>;

    open spec fn view(&self) -> StepView<R> {
        match self {
            Step::Next(phase) => StepView::Next(phase@),
            Step::Seeded(seed) => StepView::Seeded(seed@),
        }
    }
}

/// The bytes of `a` and `b` combined pairwise by exclusive or, as far as the shorter goes.
pub open spec fn xor_bytes(a: Seq<u8>, b: Seq<u8>) -> Seq<u8> {
    Seq::new(if a.len() <= b.len() { a.len() } else { b.len() }, |i: int| a[i] ^ b[i])
}

/// Whether `player` (or the owner, for `None`) may reveal the committed seed: only the owner
/// when the owner committed, else the owner or the first player.
pub open spec fn may_reveal(owner_hash: bool, player: Option<Player>) -> bool {
    if owner_hash {
        player is None
    } else {
        player is None || player == Some(0u8)
    }
}

/// What an exchange becomes when `player` (or the owner, for `None`) submits `action`, or
/// `None` when it is refused. `verified` tells whether the requested check accepts a revealed
/// secret part. A commitment is taken from the owner or the first player, a reply from the
/// owner or the second player; a revealed seed must match its commitment unless the owner
/// reveals what the first player committed, and the seed settled is the reply and the revealed
/// seed combined by exclusive or, which must give sixteen bytes. A secret part is taken from
/// the owner or the player asked for it, if the check accepts it.
pub open spec fn next_phase<R, A: Action>(
    phase: PhaseView<R>,
    player: Option<Player>,
    action: StoreActionView<A>,
    verified: bool,
) -> Option<StepView<R>> {
    match action {
        StoreActionView::Play(_) => None,
        StoreActionView::RandomCommit(h) => match phase {
            PhaseView::RandomCommit => if player is None || player == Some(0u8) {
                Some(StepView::Next(PhaseView::RandomReply { hash: h, owner_hash: player is None }))
            } else {
                None
            },
            _ => None,
        },
        StoreActionView::RandomReply(seed) => match phase {
            PhaseView::RandomReply { hash, owner_hash } => if player is None || player == Some(
                1u8,
            ) {
                Some(StepView::Next(PhaseView::RandomReveal { hash, owner_hash, reply: seed }))
            } else {
                None
            },
            _ => None,
        },
        StoreActionView::RandomReveal(seed) => match phase {
            PhaseView::RandomReveal { hash, owner_hash, reply } => if !may_reveal(
                owner_hash,
                player,
            ) || ((player is Some || owner_hash) && keccak256_spec(seed) != hash)
                || xor_bytes(reply, seed).len() != 16 {
                None
            } else {
                Some(StepView::Seeded(xor_bytes(reply, seed)))
            },
            _ => None,
        },
        StoreActionView::Reveal(secret) => match phase {
            PhaseView::Reveal { random, revealer } => if (player is Some && player != Some(
                revealer,
            )) || !verified {
                None
            } else {
                Some(StepView::Next(PhaseView::Idle { random, secret: Some(secret) }))
            },
            _ => None,
        },
    }
}

/// Advances an exchange by a store action that `player` (or the owner, for `None`) submits.
///
/// `verified` is what the check of the requested secret part says of a revealed part.
pub fn advance<R, A: Action>(
    phase: Phase<R>,
    player: Option<Player>,
    action: &StoreAction<A>,
    verified: bool,
) -> (r: Result<Step<R>, String>)
    ensures
        match next_phase(phase@, player, action@, verified) {
            Some(step) => r matches Ok(s) && s@ == step,
            None => r is Err,
        },
{
    let first = match player {
        Some(p) => p == 0,
        None => true,
    };
    let second = match player {
        Some(p) => p == 1,
        None => true,
    };
    match action {
        StoreAction::Play(_) => Err("a domain-specific action while an exchange is pending".to_owned()),
        StoreAction::RandomCommit(hash) => match phase {
            Phase::RandomCommit => {
                if !first {
                    return Err("only the owner or the first player".to_owned());
                }
                Ok(Step::Next(Phase::RandomReply { hash: *hash, owner_hash: player.is_none() }))
            },
            _ => Err("no commitment is awaited".to_owned()),
        },
        StoreAction::RandomReply(seed) => match phase {
            Phase::RandomReply { hash, owner_hash } => {
                if !second {
                    return Err("only the owner or the second player".to_owned());
                }
                let reply = vstd::slice::slice_to_vec(seed.as_slice());
                Ok(Step::Next(Phase::RandomReveal { hash, owner_hash, reply }))
            },
            _ => Err("no reply is awaited".to_owned()),
        },
        StoreAction::RandomReveal(seed) => match phase {
            Phase::RandomReveal { hash, owner_hash, reply } => {
                if owner_hash && player.is_some() {
                    return Err("only the owner".to_owned());
                }
                if !owner_hash && !first {
                    return Err("only the owner or the first player".to_owned());
                }
                if player.is_some() || owner_hash {
                    let digest = keccak256(seed.as_slice());
                    if !crate::proof_state::slices_equal(digest.as_slice(), hash.as_slice()) {
                        return Err("the revealed seed does not match its commitment".to_owned());
                    }
                }
                if reply.len() < 16 || seed.len() < 16 || (reply.len() > 16 && seed.len() > 16) {
                    return Err("the seed is not sixteen bytes".to_owned());
                }
                let mut out = [0u8; 16];
                let mut i: usize = 0;
                while i < 16
                    invariant
                        i <= 16,
                        reply@.len() >= 16,
                        seed@.len() >= 16,
                        forall|j: int| 0 <= j < i ==> out@[j] == reply@[j] ^ seed@[j],
                    decreases 16 - i,
                {
                    out[i] = reply[i] ^ seed[i];
                    i = i + 1;
                }
                assert(out@ =~= xor_bytes(reply@, seed@));
                Ok(Step::Seeded(out))
            },
            _ => Err("no committed seed is awaited".to_owned()),
        },
        StoreAction::Reveal(secret) => match phase {
            Phase::Reveal { random, revealer } => {
                let other = match player {
                    Some(p) => p != revealer,
                    None => false,
                };
                if other {
                    return Err("only the owner or the revealer reveals".to_owned());
                }
                if !verified {
                    return Err("the revealed part is refused".to_owned());
                }
                let part = vstd::slice::slice_to_vec(secret.as_slice());
                Ok(Step::Next(Phase::Idle { random, secret: Some(part) }))
            },
            _ => Err("no secret is awaited".to_owned()),
        },
    }
}

/// A commit-reveal exchange completes: when the owner, or the first player, commits to the
/// digest of a seed, the second player (or the owner) replies, and the committer reveals the
/// seed, randomness is settled with the reply and the seed combined by exclusive or, provided
/// both are sixteen bytes.
pub proof fn lemma_commit_reveal<R, A: Action>(
    committer: Option<Player>,
    replier: Option<Player>,
    seed: Seq<u8>,
    reply: Seq<u8>,
)
    requires
        committer is None || committer == Some(0u8),
        replier is None || replier == Some(1u8),
        seed.len() == 16,
        reply.len() == 16,
    ensures
        ({
            let hash = keccak256_spec(seed);
            let owner_hash = committer is None;
            let p1 = PhaseView::<R>::RandomReply { hash, owner_hash };
            let p2 = PhaseView::<R>::RandomReveal { hash, owner_hash, reply };
            &&& next_phase::<R, A>(
                PhaseView::RandomCommit,
                committer,
                StoreActionView::RandomCommit(hash),
                false,
            ) == Some(StepView::Next(p1))
            &&& next_phase::<R, A>(p1, replier, StoreActionView::RandomReply(reply), false) == Some(
                StepView::Next(p2),
            )
            &&& next_phase::<R, A>(p2, committer, StoreActionView::RandomReveal(seed), false)
                == Some(StepView::<R>::Seeded(xor_bytes(reply, seed)))
        }),
{
}

/// A revealed seed that does not match the commitment is refused, unless the owner reveals
/// what the first player committed.
pub proof fn lemma_reveal_mismatch<R, A: Action>(
    hash: Seq<u8>,
    owner_hash: bool,
    reply: Seq<u8>,
    player: Option<Player>,
    seed: Seq<u8>,
)
    requires
        keccak256_spec(seed) != hash,
        player is Some || owner_hash,
    ensures
        next_phase::<R, A>(
            PhaseView::RandomReveal { hash, owner_hash, reply },
            player,
            StoreActionView::RandomReveal(seed),
            false,
        ) is None,
{
}


// ---------------------------------------------------------------------------
// Store states
// ---------------------------------------------------------------------------

/// The binary representation of a ready store state: the domain-specific state's, then the
/// numbers of actions applied, secrets revealed and events logged, as four little-endian bytes
/// each.
pub open spec fn store_state_bytes(
    state: Seq<u8>,
    action_count: int,
    reveal_count: int,
    event_count: int,
) -> Seq<u8> {
    state + le_u32_bytes(action_count) + le_u32_bytes(reveal_count) + le_u32_bytes(event_count)
}

/// The parts of a store state's binary representation: everything but the last twelve bytes is
/// the domain-specific state's, and those hold the three counts.
pub open spec fn parse_store_state(data: Seq<u8>) -> Option<(Seq<u8>, int, int, int)> {
    if data.len() < 12 {
        None
    } else {
        let n = data.len() - 12;
        Some(
            (
                data.take(n),
                le_u32_value(data.skip(n)),
                le_u32_value(data.skip(n + 4)),
                le_u32_value(data.skip(n + 8)),
            ),
        )
    }
}

/// Generates the binary representation of a ready store state from the domain-specific
/// state's and the counts, if the counts fit in 32 bits.
pub fn write_store_state(
    state: &[u8],
    action_count: usize,
    reveal_count: usize,
    event_count: usize,
) -> (r: Option<Vec<u8>>)
    ensures
        match r {
            Some(data) => action_count <= u32::MAX && reveal_count <= u32::MAX && event_count
                <= u32::MAX && data@ == store_state_bytes(
                state@,
                action_count as int,
                reveal_count as int,
                event_count as int,
            ),
            None => action_count > u32::MAX || reveal_count > u32::MAX || event_count > u32::MAX,
        },
{
    let mut data = vstd::slice::slice_to_vec(state);
    if write_u32_usize(&mut data, action_count).is_err() {
        return None;
    }
    if write_u32_usize(&mut data, reveal_count).is_err() {
        return None;
    }
    if write_u32_usize(&mut data, event_count).is_err() {
        return None;
    }
    Some(data)
}

/// Splits the binary representation of a store state into the domain-specific state's and the
/// counts.
///
/// `data` must have been constructed using [write_store_state].
pub fn read_store_state(data: &[u8]) -> (r: Result<(Vec<u8>, usize, usize, usize), String>)
    ensures
        match parse_store_state(data@) {
            Some((state, a, b, c)) => r matches Ok((s, x, y, z)) && s@ == state && x == a && y == b
                && z == c,
            None => r is Err,
        },
{
    if data.len() < 12 {
        return Err("data.len() < 3 * size_of::<u32>()".to_owned());
    }
    let n = data.len() - 12;
    let (state, counts) = data.split_at(n);
    let mut cur = counts;
    proof {
        assert(counts@ == data@.skip(n as int));
        assert(counts@.skip(4) =~= data@.skip(n + 4));
        assert(counts@.skip(4).skip(4) =~= data@.skip(n + 8));
    }
    let action_count = read_u32_usize(&mut cur)?;
    let reveal_count = read_u32_usize(&mut cur)?;
    let event_count = read_u32_usize(&mut cur)?;
    Ok((vstd::slice::slice_to_vec(state), action_count, reveal_count, event_count))
}

/// Reading a store state's binary representation gives back the domain-specific state's and
/// the counts.
pub proof fn lemma_store_state_roundtrip(state: Seq<u8>, a: int, b: int, c: int)
    requires
        0 <= a <= u32::MAX,
        0 <= b <= u32::MAX,
        0 <= c <= u32::MAX,
    ensures
        parse_store_state(store_state_bytes(state, a, b, c)) == Some((state, a, b, c)),
{
    let data = store_state_bytes(state, a, b, c);
    let n = state.len() as int;
    lemma_le_u32_roundtrip(a);
    lemma_le_u32_roundtrip(b);
    lemma_le_u32_roundtrip(c);
    assert(data.take(n) =~= state);
    assert(data.skip(n).take(4) =~= le_u32_bytes(a));
    assert(data.skip(n + 4).take(4) =~= le_u32_bytes(b));
    assert(data.skip(n + 8).take(4) =~= le_u32_bytes(c));
    assert(le_u32_value(data.skip(n)) == le_u32_value(le_u32_bytes(a)));
    assert(le_u32_value(data.skip(n + 4)) == le_u32_value(le_u32_bytes(b)));
    assert(le_u32_value(data.skip(n + 8)) == le_u32_value(le_u32_bytes(c)));
}



/// Domain-specific store state: the check that decides whether an action by a player may
/// start a transition. The transition itself runs outside the library.
pub trait Game: Sized {
    /// The domain-specific action.
    type Action: Action;

    /// Whether `player` (the owner, for `None`) may take `action` in this state.
    spec fn spec_verify(&self, player: Option<Player>, action: Self::Action) -> bool;

    /// Verifies if an action by a given player is valid for the state.
    fn verify(&self, player: Option<Player>, action: &Self::Action) -> (r: Result<(), String>)
        ensures
            r is Ok <==> self.spec_verify(player, *action),
    ;
}

// ---------------------------------------------------------------------------
// The store's state machine
// ---------------------------------------------------------------------------

/// A client store's state. Ready, it holds the domain-specific state and the numbers of actions
/// applied, secrets revealed and events logged. Pending, a domain-specific transition is under
/// way (it runs outside the library, which sees the exchange it waits on): the state holds that
/// exchange and the two counts. The generator of settled randomness is named by the sixteen-byte
/// seed it was started from.
pub enum StoreStateModel<S> {
    /// No transition is under way.
    Ready { state: S, action_count: usize, reveal_count: usize, event_count: usize },
    /// A transition waits on an exchange.
    Pending { phase: Phase<[u8; 16]>, action_count: usize, reveal_count: usize },
}

/// The model of a store state.
pub enum StoreStateView<S> {
    Ready { state: S, action_count: int, reveal_count: int, event_count: int },
    Pending { phase: PhaseView<[u8; 16]>, action_count: int, reveal_count: int },
}

impl<S> View for StoreStateModel<S> {
    type V = StoreStateView<S>;

    open spec fn view(&self) -> StoreStateView<S> {
        match self {
            StoreStateModel::Ready { state, action_count, reveal_count, event_count } => StoreStateView::Ready {
                state: *state,
                action_count: *action_count as int,
                reveal_count: *reveal_count as int,
                event_count: *event_count as int,
            },
            StoreStateModel::Pending { phase, action_count, reveal_count } => StoreStateView::Pending {
                phase: phase@,
                action_count: *action_count as int,
                reveal_count: *reveal_count as int,
            },
        }
    }
}

/// The generator started from a sixteen-byte seed, named by that seed.
pub open spec fn seeded_generator(seed: Seq<u8>) -> [u8; 16] {
    choose|x: [u8; 16]| x@ == seed
}

/// What a store state becomes when `player` (the owner, for `None`) submits `action`, or `None`
/// when it is refused. A domain-specific action is taken only by a ready state, and only when
/// the domain-specific state's check accepts it (see [Game::verify]): the transition starts with nothing
/// awaited and one more action counted. Every other action is a step of the exchange that a
/// pending state waits on (see [next_phase]), and counts one more revealed secret; randomness
/// settled by it starts a generator from the settled seed.
pub open spec fn store_step_spec<S: Game>(
    st: StoreStateView<S>,
    player: Option<Player>,
    action: StoreActionView<S::Action>,
    verified: bool,
) -> Option<StoreStateView<S>> {
    match action {
        StoreActionView::Play(a) => match st {
            StoreStateView::Ready { state, action_count, reveal_count, .. } => if state.spec_verify(player, a) {
                Some(
                    StoreStateView::Pending {
                        phase: PhaseView::Idle { random: None, secret: None },
                        action_count: action_count + 1,
                        reveal_count,
                    },
                )
            } else {
                None
            },
            StoreStateView::Pending { .. } => None,
        },
        _ => match st {
            StoreStateView::Pending { phase, action_count, reveal_count } => match next_phase::<
                [u8; 16],
                S::Action,
            >(phase, player, action, verified) {
                Some(StepView::Next(p)) => Some(
                    StoreStateView::Pending { phase: p, action_count, reveal_count: reveal_count + 1 },
                ),
                Some(StepView::Seeded(seed)) => Some(
                    StoreStateView::Pending {
                        phase: PhaseView::Idle { random: Some(seeded_generator(seed)), secret: None },
                        action_count,
                        reveal_count: reveal_count + 1,
                    },
                ),
                None => None,
            },
            StoreStateView::Ready { .. } => None,
        },
    }
}

/// A domain-specific action that the ready state's check refuses never starts a transition:
/// the store refuses it, and (see [store_step]) keeps its state and counts.
pub proof fn lemma_refused_play<S: Game>(
    st: StoreStateView<S>,
    player: Option<Player>,
    action: S::Action,
    verified: bool,
)
    requires
        st matches StoreStateView::Ready { state, .. } ==> !state.spec_verify(player, action),
    ensures
        store_step_spec(st, player, StoreActionView::Play(action), verified) is None,
{
}

/// Whether the counts of a store state leave room for one more step: an action when ready,
/// a revealed secret when pending.
pub open spec fn counts_ok<S>(st: StoreStateView<S>) -> bool {
    match st {
        StoreStateView::Ready { action_count, .. } => action_count < usize::MAX,
        StoreStateView::Pending { reveal_count, .. } => reveal_count < usize::MAX,
    }
}

/// A copy of an exchange.
fn copy_phase(p: &Phase<[u8; 16]>) -> (r: Phase<[u8; 16]>)
    ensures
        r@ == p@,
{
    match p {
        Phase::Idle { random, secret } => Phase::Idle {
            random: *random,
            secret: match secret {
                Some(v) => Some(vstd::slice::slice_to_vec(v.as_slice())),
                None => None,
            },
        },
        Phase::RandomCommit => Phase::RandomCommit,
        Phase::RandomReply { hash, owner_hash } => Phase::RandomReply { hash: *hash, owner_hash: *owner_hash },
        Phase::RandomReveal { hash, owner_hash, reply } => Phase::RandomReveal {
            hash: *hash,
            owner_hash: *owner_hash,
            reply: vstd::slice::slice_to_vec(reply.as_slice()),
        },
        Phase::Reveal { random, revealer } => Phase::Reveal { random: *random, revealer: *revealer },
    }
}

/// Applies a store action that `player` (the owner, for `None`) submits to a store state.
///
/// A domain-specific action is checked by the domain-specific state ([Game::verify]), and when
/// accepted hands that state out, for the transition to run on. `verified` is what the
/// requested check says of a revealed secret part. A refused action leaves the state as it was.
pub fn store_step<S: Game>(
    st: &mut StoreStateModel<S>,
    player: Option<Player>,
    action: &StoreAction<S::Action>,
    verified: bool,
) -> (r: Result<Option<S>, String>)
    requires
        counts_ok(old(st)@),
    ensures
        match store_step_spec(old(st)@, player, action@, verified) {
            Some(after) => r is Ok && final(st)@ == after,
            None => r is Err && final(st)@ == old(st)@,
        },
        r matches Ok(Some(s)) ==> old(st)@ matches StoreStateView::Ready { state, .. } && s == state,
        r matches Ok(x) ==> (x is Some <==> action is Play),
        action is Play && r is Ok ==> (old(st)@ matches StoreStateView::Ready { state, .. }
            && state.spec_verify(player, action->Play_0)),
{
    match action {
        StoreAction::Play(a) => {
            match &*st {
                StoreStateModel::Ready { state, .. } => {
                    state.verify(player, a)?;
                },
                StoreStateModel::Pending { .. } => {
                    return Err("a transition is already under way".to_owned());
                },
            }
            let mut old_state = StoreStateModel::Pending {
                phase: Phase::Idle { random: None, secret: None },
                action_count: 0,
                reveal_count: 0,
            };
            std::mem::swap(&mut old_state, st);
            match old_state {
                StoreStateModel::Ready { state, action_count, reveal_count, event_count } => {
                    *st = StoreStateModel::Pending {
                        phase: Phase::Idle { random: None, secret: None },
                        action_count: action_count + 1,
                        reveal_count,
                    };
                    Ok(Some(state))
                },
                StoreStateModel::Pending { phase, action_count, reveal_count } => {
                    *st = StoreStateModel::Pending { phase, action_count, reveal_count };
                    Err("a transition is already under way".to_owned())
                },
            }
        },
        _ => {
            let (phase, action_count, reveal_count) = match &*st {
                StoreStateModel::Pending { phase, action_count, reveal_count } => (
                    copy_phase(phase),
                    *action_count,
                    *reveal_count,
                ),
                StoreStateModel::Ready { .. } => {
                    return Err("no transition is under way".to_owned());
                },
            };
            match advance(phase, player, action, verified) {
                Ok(Step::Next(next)) => {
                    *st = StoreStateModel::Pending { phase: next, action_count, reveal_count: reveal_count + 1 };
                    Ok(None)
                },
                Ok(Step::Seeded(seed)) => {
                    proof {
                        let c = seeded_generator(seed@);
                        assert(c@ == seed@);
                        assert(c =~= seed);
                    }
                    *st = StoreStateModel::Pending {
                        phase: Phase::Idle { random: Some(seed), secret: None },
                        action_count,
                        reveal_count: reveal_count + 1,
                    };
                    Ok(None)
                },
                Err(e) => Err(e),
            }
        },
    }
}

// ---------------------------------------------------------------------------
// Flushing
// ---------------------------------------------------------------------------

/// How many more steps an exchange can take before nothing is awaited.
pub open spec fn phase_rank<R>(p: PhaseView<R>) -> nat {
    match p {
        PhaseView::RandomCommit => 3,
        PhaseView::RandomReply { .. } => 2,
        PhaseView::RandomReveal { .. } => 1,
        PhaseView::Reveal { .. } => 1,
        PhaseView::Idle { .. } => 0,
    }
}

/// How many more exchange steps a store state can take.
pub open spec fn state_rank<S>(st: StoreStateView<S>) -> nat {
    match st {
        StoreStateView::Pending { phase, .. } => phase_rank(phase),
        StoreStateView::Ready { .. } => 0,
    }
}

/// Whether nothing is awaited by a pending state, so that its domain-specific transition has
/// to resume before the exchange can go on.
pub open spec fn awaits_resume<S>(st: StoreStateView<S>) -> bool {
    st matches StoreStateView::Pending { phase: PhaseView::Idle { .. }, .. }
}

/// Every accepted exchange step leaves the store pending, with fewer steps left to take.
pub proof fn lemma_step_rank<S: Game>(
    st: StoreStateView<S>,
    player: Option<Player>,
    a: StoreActionView<S::Action>,
    verified: bool,
)
    requires
        !(a is Play),
        store_step_spec(st, player, a, verified) is Some,
    ensures
        state_rank(store_step_spec(st, player, a, verified)->0) < state_rank(st),
        store_step_spec(st, player, a, verified)->0 is Pending,
{
}

/// The store actions that `player`'s store (the owner's, for `None`) submits in a row from a
/// store state, the state they lead to and the seed it has committed to then; `Err` when one
/// is refused. It submits what [submission_spec] says, applying each action as it goes, and
/// stops when it has nothing to submit or when the domain-specific transition has to resume.
/// `seed` is the fresh seed drawn for a commitment or a reply, and `revealed` and `verified`
/// concern the reveal request, if one is pending.
pub open spec fn flush_spec<S: Game>(
    st: StoreStateView<S>,
    player: Option<Player>,
    seed: Seq<u8>,
    committed: Option<Seq<u8>>,
    check_sender: bool,
    p2p: bool,
    revealed: Option<Seq<u8>>,
    verified: bool,
) -> Result<(Seq<StoreActionView<S::Action>>, StoreStateView<S>, Option<Seq<u8>>), ()>
    decreases state_rank(st),
{
    match st {
        StoreStateView::Ready { .. } => Ok((seq![], st, committed)),
        StoreStateView::Pending { phase, .. } => match submission_spec::<[u8; 16], S::Action>(
            phase,
            player,
            seed,
            committed,
            check_sender,
            p2p,
            revealed,
            verified,
        ) {
            Err(_) => Err(()),
            Ok(None) => Ok((seq![], st, committed)),
            Ok(Some(a)) => match store_step_spec::<S>(st, player, a, verified) {
                None => Err(()),
                Some(next) => {
                    let c = if a is RandomCommit {
                        Some(seed)
                    } else {
                        committed
                    };
                    if awaits_resume(next) || a is Play {
                        Ok((seq![a], next, c))
                    } else {
                        proof {
                            lemma_step_rank::<S>(st, player, a, verified);
                        }
                        match flush_spec::<S>(
                            next,
                            player,
                            seed,
                            c,
                            check_sender,
                            p2p,
                            revealed,
                            verified,
                        ) {
                            Err(_) => Err(()),
                            Ok((rest, last, c2)) => Ok((seq![a] + rest, last, c2)),
                        }
                    }
                },
            },
        },
    }
}

/// A flush that checks who sends sends a prefix of what a flush that does not check sends from
/// the same state; and a checked flush reveals part of a secret only when the store takes part
/// in the reveal request the state waits on (see [reveals_for]).
pub proof fn lemma_checked_flush<S: Game>(
    st: StoreStateView<S>,
    player: Option<Player>,
    seed: Seq<u8>,
    committed: Option<Seq<u8>>,
    p2p: bool,
    revealed: Option<Seq<u8>>,
    verified: bool,
)
    requires
        flush_spec::<S>(st, player, seed, committed, true, p2p, revealed, verified) is Ok,
        flush_spec::<S>(st, player, seed, committed, false, p2p, revealed, verified) is Ok,
    ensures
        ({
            let a = flush_spec::<S>(st, player, seed, committed, true, p2p, revealed, verified)->Ok_0.0;
            let b = flush_spec::<S>(st, player, seed, committed, false, p2p, revealed, verified)->Ok_0.0;
            &&& a.len() <= b.len()
            &&& a == b.take(a.len() as int)
            &&& (exists|i: int| 0 <= i < a.len() && #[trigger] a[i] is Reveal) ==> (
                st matches StoreStateView::Pending { phase: PhaseView::Reveal { revealer, .. }, .. }
                && reveals_for(true, player, p2p, revealer))
        }),
    decreases state_rank(st),
{
    let a = flush_spec::<S>(st, player, seed, committed, true, p2p, revealed, verified)->Ok_0.0;
    let b = flush_spec::<S>(st, player, seed, committed, false, p2p, revealed, verified)->Ok_0.0;
    match st {
        StoreStateView::Ready { .. } => {},
        StoreStateView::Pending { phase, .. } => {
            match submission_spec::<[u8; 16], S::Action>(phase, player, seed, committed, true, p2p, revealed, verified) {
                Ok(Some(x)) => {
                    let next = store_step_spec::<S>(st, player, x, verified)->0;
                    let c = if x is RandomCommit { Some(seed) } else { committed };
                    if awaits_resume(next) || x is Play {
                        assert(a == seq![x]);
                        assert(b.take(1) =~= seq![x]);
                    } else {
                        lemma_step_rank::<S>(st, player, x, verified);
                        lemma_checked_flush::<S>(next, player, seed, c, p2p, revealed, verified);
                        let ra = flush_spec::<S>(next, player, seed, c, true, p2p, revealed, verified)->Ok_0.0;
                        let rb = flush_spec::<S>(next, player, seed, c, false, p2p, revealed, verified)->Ok_0.0;
                        assert(a == seq![x] + ra);
                        assert(b == seq![x] + rb);
                        assert(b.take(a.len() as int) =~= seq![x] + rb.take(ra.len() as int));
                        assert(!(x is Reveal));
                        assert(!(next matches StoreStateView::Pending { phase: PhaseView::Reveal { .. }, .. }));
                        if exists|i: int| 0 <= i < a.len() && #[trigger] a[i] is Reveal {
                            let i = choose|i: int| 0 <= i < a.len() && #[trigger] a[i] is Reveal;
                            assert(i > 0);
                            assert(ra[i - 1] is Reveal);
                        }
                    }
                },
                _ => {
                    assert(a.len() == 0);
                    assert(b.take(0) =~= a);
                },
            }
        },
    }
}

/// A copy of optional bytes.
fn copy_opt_bytes(v: &Option<Vec<u8>>) -> (r: Option<Vec<u8>>)
    ensures
        bytes_view(r) == bytes_view(*v),
{
    match v {
        Some(x) => Some(vstd::slice::slice_to_vec(x.as_slice())),
        None => None,
    }
}

/// The models of a sequence of store actions.
pub open spec fn action_views<A: Action>(v: Seq<StoreAction<A>>) -> Seq<StoreActionView<A>> {
    v.map_values(|a: StoreAction<A>| a@)
}

/// Submits, and applies to `st`, the store actions that `player`'s store (the owner's, for
/// `None`) sends in a row: see [flush_spec]. `committed` is the seed the store committed to,
/// updated when it commits to `seed`.
pub fn flush_actions<S: Game>(
    st: &mut StoreStateModel<S>,
    player: Option<Player>,
    seed: [u8; 16],
    committed: &mut Option<Vec<u8>>,
    check_sender: bool,
    p2p: bool,
    revealed: Option<Vec<u8>>,
    verified: bool,
) -> (r: Result<Vec<StoreAction<S::Action>>, String>)
    requires
        old(st)@ matches StoreStateView::Pending { reveal_count, .. } ==> reveal_count + 3 <= usize::MAX,
    ensures
        match flush_spec::<S>(
            old(st)@,
            player,
            seed@,
            bytes_view(*old(committed)),
            check_sender,
            p2p,
            bytes_view(revealed),
            verified,
        ) {
            Ok((actions, after, c)) => r matches Ok(v) && action_views(v@) == actions && final(st)@
                == after && bytes_view(*final(committed)) == c,
            Err(_) => r is Err,
        },
{
    let ghost target = flush_spec::<S>(
        st@,
        player,
        seed@,
        bytes_view(*committed),
        check_sender,
        p2p,
        bytes_view(revealed),
        verified,
    );
    let mut actions: Vec<StoreAction<S::Action>> = Vec::new();
    loop
        invariant
            target == flush_spec::<S>(
                old(st)@,
                player,
                seed@,
                bytes_view(*old(committed)),
                check_sender,
                p2p,
                bytes_view(revealed),
                verified,
            ),
            st@ matches StoreStateView::Pending { reveal_count, phase, .. } ==> reveal_count
                + phase_rank(phase) <= usize::MAX,
            target == match flush_spec::<S>(
                st@,
                player,
                seed@,
                bytes_view(*committed),
                check_sender,
                p2p,
                bytes_view(revealed),
                verified,
            ) {
                Ok((rest, last, c)) => Ok((action_views(actions@) + rest, last, c)),
                Err(_) => Err(()),
            },
        ensures
            match target {
                Ok((all, after, c)) => action_views(actions@) == all && st@ == after && bytes_view(*committed) == c,
                Err(_) => false,
            },
        decreases state_rank(st@),
    {
        let phase = match &*st {
            StoreStateModel::Pending { phase, .. } => phase,
            StoreStateModel::Ready { .. } => {
                proof {
                    assert(action_views(actions@) + seq![] =~= action_views(actions@));
                }
                break;
            },
        };
        let submitted = submission::<[u8; 16], S::Action>(
            phase,
            player,
            seed,
            copy_opt_bytes(committed),
            check_sender,
            p2p,
            copy_opt_bytes(&revealed),
            verified,
        );
        let action = match submitted {
            Ok(Some(a)) => a,
            Ok(None) => {
                proof {
                    assert(action_views(actions@) + seq![] =~= action_views(actions@));
                }
                break;
            },
            Err(e) => {
                proof {
                    assert(flush_spec::<S>(
                        st@,
                        player,
                        seed@,
                        bytes_view(*committed),
                        check_sender,
                        p2p,
                        bytes_view(revealed),
                        verified,
                    ) is Err);
                }
                return Err(e);
            },
        };
        let ghost before = st@;
        let ghost committed_before = bytes_view(*committed);
        match store_step(st, player, &action, verified) {
            Ok(_) => {},
            Err(e) => {
                proof {
                    assert(store_step_spec::<S>(before, player, action@, verified) is None);
                    assert(flush_spec::<S>(
                        before,
                        player,
                        seed@,
                        committed_before,
                        check_sender,
                        p2p,
                        bytes_view(revealed),
                        verified,
                    ) is Err);
                }
                return Err(e);
            },
        }
        let commits = match &action {
            StoreAction::RandomCommit(_) => true,
            _ => false,
        };
        if commits {
            *committed = Some(vstd::slice::slice_to_vec(seed.as_slice()));
        }
        let ghost prev = actions@;
        let resume = match &*st {
            StoreStateModel::Pending { phase: Phase::Idle { .. }, .. } => true,
            _ => false,
        };
        actions.push(action);
        proof {
            assert(action_views(actions@) =~= action_views(prev) + seq![action@]);
            lemma_step_rank::<S>(before, player, action@, verified);
        }
        if resume {
            proof {
                assert(action_views(actions@) + seq![] =~= action_views(actions@));
            }
            break;
        }
        proof {
            assert forall|rest: Seq<StoreActionView<S::Action>>| action_views(prev) + (seq![action@] + rest)
                =~= action_views(actions@) + rest by {}
        }
    }
    Ok(actions)
}

/// One step of applying a transition with drawn randomness in place of commit-reveal: requested
/// randomness is settled from `seed` (see [draw_spec]), and a requested secret part, when the
/// store knows it (`revealed`), is revealed by its owner once the request's check accepts it
/// (`verified`); refused when the check does not. `Ok(None)` when nothing can be done.
pub open spec fn random_step_spec<S: Game>(
    st: StoreStateView<S>,
    seed: Seq<u8>,
    revealed: Option<Seq<u8>>,
    verified: bool,
) -> Result<Option<StoreStateView<S>>, ()> {
    match st {
        StoreStateView::Pending { phase: PhaseView::RandomCommit, .. } => Ok(draw_spec(st, seed)),
        StoreStateView::Pending { phase: PhaseView::Reveal { revealer, .. }, .. } => match revealed {
            None => Ok(None),
            Some(part) => if !verified {
                Err(())
            } else {
                Ok(store_step_spec::<S>(st, Some(revealer), StoreActionView::Reveal(part), true))
            },
        },
        _ => Ok(None),
    }
}

/// Takes one step of applying a transition with drawn randomness; tells whether the state moved.
/// See [random_step_spec].
pub fn random_step<S: Game>(
    st: &mut StoreStateModel<S>,
    seed: [u8; 16],
    revealed: Option<Vec<u8>>,
    verified: bool,
) -> (r: Result<bool, String>)
    requires
        old(st)@ matches StoreStateView::Pending { reveal_count, .. } ==> reveal_count + 3 <= usize::MAX,
    ensures
        match random_step_spec::<S>(old(st)@, seed@, bytes_view(revealed), verified) {
            Ok(Some(after)) => r == Ok::<bool, String>(true) && final(st)@ == after,
            Ok(None) => r == Ok::<bool, String>(false) && final(st)@ == old(st)@,
            Err(_) => r is Err,
        },
{
    let revealer: Option<Player> = match &*st {
        StoreStateModel::Pending { phase: Phase::RandomCommit, .. } => {
            let moved = store_draw(st, seed);
            return Ok(moved);
        },
        StoreStateModel::Pending { phase: Phase::Reveal { revealer, .. }, .. } => Some(*revealer),
        _ => None,
    };
    match (revealer, revealed) {
        (Some(p), Some(part)) => {
            if !verified {
                return Err("the revealed part is refused".to_owned());
            }
            let action: StoreAction<S::Action> = StoreAction::Reveal(part);
            match store_step(st, Some(p), &action, true) {
                Ok(_) => Ok(true),
                Err(e) => Err(e),
            }
        },
        _ => Ok(false),
    }
}

/// What a pending store state becomes when its domain-specific transition finishes with the
/// domain-specific state `state` after logging `event_count` events: ready, with the counts kept.
pub open spec fn settle_spec<S>(st: StoreStateView<S>, finished: Option<(S, usize)>) -> StoreStateView<S> {
    match (st, finished) {
        (StoreStateView::Pending { action_count, reveal_count, .. }, Some((state, event_count))) =>
            StoreStateView::Ready { state, action_count, reveal_count, event_count: event_count as int },
        _ => st,
    }
}

/// Settles a pending store state whose domain-specific transition finished (`finished` holds
/// the resulting state and the number of events logged); otherwise the state is kept.
pub fn store_settle<S>(st: &mut StoreStateModel<S>, finished: Option<(S, usize)>)
    ensures
        final(st)@ == settle_spec(old(st)@, finished),
{
    match finished {
        Some((state, event_count)) => {
            let (action_count, reveal_count, pending) = match &*st {
                StoreStateModel::Pending { action_count, reveal_count, .. } => (*action_count, *reveal_count, true),
                StoreStateModel::Ready { .. } => (0, 0, false),
            };
            if pending {
                *st = StoreStateModel::Ready { state, action_count, reveal_count, event_count };
            }
        },
        None => {},
    }
}

/// What a store state becomes when randomness is requested and settled at once from a drawn
/// seed, in place of the commit-reveal exchange: the generator starts from the seed, and the
/// three steps of the exchange are counted as revealed secrets. `None` when no randomness is
/// requested.
pub open spec fn draw_spec<S>(st: StoreStateView<S>, seed: Seq<u8>) -> Option<StoreStateView<S>> {
    match st {
        StoreStateView::Pending { phase: PhaseView::RandomCommit, action_count, reveal_count } => Some(
            StoreStateView::Pending {
                phase: PhaseView::Idle { random: Some(seeded_generator(seed)), secret: None },
                action_count,
                reveal_count: reveal_count + 3,
            },
        ),
        _ => None,
    }
}

/// Settles requested randomness from a drawn seed, without commit-reveal; tells whether
/// randomness was requested. Otherwise the state is kept.
pub fn store_draw<S>(st: &mut StoreStateModel<S>, seed: [u8; 16]) -> (r: bool)
    requires
        old(st)@ matches StoreStateView::Pending { reveal_count, .. } ==> reveal_count + 3 <= usize::MAX,
    ensures
        match draw_spec(old(st)@, seed@) {
            Some(after) => r && final(st)@ == after,
            None => !r && final(st)@ == old(st)@,
        },
{
    let (action_count, reveal_count, requested) = match &*st {
        StoreStateModel::Pending { phase: Phase::RandomCommit, action_count, reveal_count } => (
            *action_count,
            *reveal_count,
            true,
        ),
        _ => (0, 0, false),
    };
    if !requested {
        return false;
    }
    proof {
        let c = seeded_generator(seed@);
        assert(c@ == seed@);
        assert(c =~= seed);
    }
    *st = StoreStateModel::Pending {
        phase: Phase::Idle { random: Some(seed), secret: None },
        action_count,
        reveal_count: reveal_count + 3,
    };
    true
}

// ---------------------------------------------------------------------------
// Store images
// ---------------------------------------------------------------------------

/// Whether `data` is the CBOR representation of a xorshift generator, as the generator's
/// deserializer reads it.
pub uninterp spec fn xorshift_cbor_accepts(data: Seq<u8>) -> bool;

/// Calls `serde_cbor::from_slice` for `rand_xorshift::XorShiftRng` on `data` and tells whether
/// it succeeded. Claimed of it: the answer is named by [xorshift_cbor_accepts], a function of
/// the bytes alone.
#[verifier::external_body]
fn xorshift_cbor_check(data: &[u8]) -> (r: bool)
    ensures
        r == xorshift_cbor_accepts(data@),
{
    serde_cbor::from_slice::<rand_xorshift::XorShiftRng>(data).is_ok()
}

/// A player's secret as a store image holds it: the secret's binary representation and the
/// CBOR representation of the random number generator that goes with it.
pub struct SecretEntry {
    /// The binary representation of the secret.
    pub secret: Vec<u8>,
    /// The CBOR representation of the generator.
    pub generator: Vec<u8>,
}

/// The model of an optional secret entry: the secret's bytes and the generator's.
pub open spec fn entry_view(e: Option<SecretEntry>) -> Option<(Seq<u8>, Seq<u8>)> {
    match e {
        Some(x) => Some((x.secret@, x.generator@)),
        None => None,
    }
}

/// What a client store keeps between sessions: the player it belongs to (none for the owner),
/// the players' secrets at the root and at the first checkpoint of the proof, the root proof
/// and the proof in their binary representations, and the seed the store committed to, if any.
pub struct StoreImage {
    /// The player the store belongs to; none for the owner.
    pub player: Option<Player>,
    /// The players' secrets in the root state.
    pub root_secrets: [Option<SecretEntry>; 2],
    /// The binary representation of the root proof.
    pub root: Vec<u8>,
    /// The players' secrets in the state of the proof's first checkpoint.
    pub proof_secrets: [Option<SecretEntry>; 2],
    /// The binary representation of the proof.
    pub proof: Vec<u8>,
    /// The seed the store committed to.
    pub seed: Option<Vec<u8>>,
}

/// The model of a store image.
pub struct StoreImageView {
    pub player: Option<Player>,
    pub root_secrets: Seq<Option<(Seq<u8>, Seq<u8>)>>,
    pub root: Seq<u8>,
    pub proof_secrets: Seq<Option<(Seq<u8>, Seq<u8>)>>,
    pub proof: Seq<u8>,
    pub seed: Option<Seq<u8>>,
}

impl View for StoreImage {
    type V = StoreImageView;

    open spec fn view(&self) -> StoreImageView {
        StoreImageView {
            player: self.player,
            root_secrets: seq![entry_view(self.root_secrets@[0]), entry_view(self.root_secrets@[1])],
            root: self.root@,
            proof_secrets: seq![entry_view(self.proof_secrets@[0]), entry_view(self.proof_secrets@[1])],
            proof: self.proof@,
            seed: bytes_view(self.seed),
        }
    }
}

/// Whether knowledge `k` covers player `i`'s secret.
pub open spec fn knows(k: SecretKnowledge, i: Player) -> bool {
    k == SecretKnowledge::Both || k == SecretKnowledge::Only(i)
}

/// The first byte of a store image's representation: one more than the store's player, else
/// `0` for an owner's store that shows no secret, `3` for one that shows both, and one more
/// than the player whose secret it shows.
pub open spec fn player_byte(p: Option<Player>, k: SecretKnowledge) -> int {
    match p {
        Some(q) => q + 1,
        None => match k {
            SecretKnowledge::Neither => 0,
            SecretKnowledge::Both => 3,
            SecretKnowledge::Only(q) => q + 1,
        },
    }
}

/// The representation of a secret entry: `1`, the secret and the generator, each preceded by
/// its length, when it is shown and present; else `0`.
pub open spec fn entry_bytes(e: Option<(Seq<u8>, Seq<u8>)>, shown: bool) -> Seq<u8> {
    if shown {
        match e {
            Some((secret, generator)) => seq![1u8] + framed(secret) + framed(generator),
            None => seq![0u8],
        }
    } else {
        seq![0u8]
    }
}

/// The binary representation of a store image showing the secrets that `k` covers: the player
/// byte; the root's two secret entries; the root proof, preceded by its length; the first
/// checkpoint's two secret entries; the proof, preceded by its length; then `1` and the
/// committed seed when the first player's secret is shown and there is one, else `0`.
pub open spec fn store_bytes(v: StoreImageView, k: SecretKnowledge) -> Seq<u8> {
    seq![player_byte(v.player, k) as u8]
        + entry_bytes(v.root_secrets[0], knows(k, 0))
        + entry_bytes(v.root_secrets[1], knows(k, 1))
        + framed(v.root)
        + entry_bytes(v.proof_secrets[0], knows(k, 0))
        + entry_bytes(v.proof_secrets[1], knows(k, 1))
        + framed(v.proof)
        + if knows(k, 0) && v.seed is Some {
            seq![1u8] + v.seed->0
        } else {
            seq![0u8]
        }
}

/// Whether a store image has a representation showing what `k` covers: every length written
/// fits in 32 bits, and the player byte fits in a byte.
pub open spec fn image_writable(v: StoreImageView, k: SecretKnowledge) -> bool {
    &&& 0 <= player_byte(v.player, k) <= 255
    &&& v.root.len() <= u32::MAX
    &&& v.proof.len() <= u32::MAX
    &&& entry_fits(v.root_secrets[0]) && entry_fits(v.root_secrets[1])
    &&& entry_fits(v.proof_secrets[0]) && entry_fits(v.proof_secrets[1])
}

/// Whether the lengths of a secret entry's parts fit in 32 bits.
pub open spec fn entry_fits(e: Option<(Seq<u8>, Seq<u8>)>) -> bool {
    match e {
        Some((secret, generator)) => secret.len() <= u32::MAX && generator.len() <= u32::MAX,
        None => true,
    }
}

/// The secret entry at the front of `data` and the bytes after it: a flag byte, then, when it
/// is `1`, a secret that `T` reads and a generator that its deserializer reads, each preceded
/// by its length.
#[verifier::opaque]
pub open spec fn parse_entry<T: Secret>(data: Seq<u8>) -> Option<(Option<(Seq<u8>, Seq<u8>)>, Seq<u8>)> {
    if data.len() == 0 || (data[0] != 0 && data[0] != 1) {
        None
    } else if data[0] == 0 {
        Some((None, data.drop_first()))
    } else {
        match parse_one(data.drop_first()) {
            None => None,
            Some((secret, r1)) => if T::spec_deserialize(secret) is None {
                None
            } else {
                match parse_one(r1) {
                    None => None,
                    Some((generator, r2)) => if !xorshift_cbor_accepts(generator) {
                        None
                    } else {
                        Some((Some((secret, generator)), r2))
                    },
                }
            },
        }
    }
}

/// The player of a store read from its first byte: none for `0` (an owner's store showing no
/// secret) and `3` (one showing both), else one less than the byte, which must name one of
/// the two players.
pub open spec fn player_of_byte(b: u8) -> Option<Option<Player>> {
    if b == 0 || b == 3 {
        Some(None)
    } else if b == 1 || b == 2 {
        Some(Some((b - 1) as u8))
    } else {
        None
    }
}

/// The seed read from what follows the proof: a flag byte, then, when it is `1`, the seed,
/// which is everything after it; when it is `0`, nothing may follow.
pub open spec fn parse_seed(data: Seq<u8>) -> Option<Option<Seq<u8>>> {
    if data.len() == 0 || (data[0] != 0 && data[0] != 1) {
        None
    } else if data[0] == 1 {
        Some(Some(data.drop_first()))
    } else if data.len() == 1 {
        Some(None)
    } else {
        None
    }
}

/// Two secret entries and a byte string preceded by its length, at the front of `data`, and the
/// bytes after them.
#[verifier::opaque]
pub open spec fn parse_half<T: Secret>(data: Seq<u8>) -> Option<
    (Option<(Seq<u8>, Seq<u8>)>, Option<(Seq<u8>, Seq<u8>)>, Seq<u8>, Seq<u8>),
> {
    match parse_entry::<T>(data) {
        None => None,
        Some((e0, d1)) => match parse_entry::<T>(d1) {
            None => None,
            Some((e1, d2)) => match parse_one(d2) {
                None => None,
                Some((bytes, d3)) => Some((e0, e1, bytes, d3)),
            },
        },
    }
}

/// The store image that `data` represents, with secrets that `T` reads, if any.
pub open spec fn parse_store<T: Secret>(data: Seq<u8>) -> Option<StoreImageView> {
    if data.len() < 10 {
        None
    } else {
        match player_of_byte(data[0]) {
            None => None,
            Some(player) => match parse_half::<T>(data.drop_first()) {
                None => None,
                Some((r0, r1, root, d3)) => match parse_half::<T>(d3) {
                    None => None,
                    Some((p0, p1, proof, d6)) => match parse_seed(d6) {
                        None => None,
                        Some(seed) => Some(
                            StoreImageView {
                                player,
                                root_secrets: seq![r0, r1],
                                root,
                                proof_secrets: seq![p0, p1],
                                proof,
                                seed,
                            },
                        ),
                    },
                },
            },
        }
    }
}

/// Consumes a secret entry from the front of `data`.
fn read_entry<T: Secret>(data: &mut &[u8]) -> (r: Result<Option<SecretEntry>, String>)
    ensures
        match parse_entry::<T>(old(data)@) {
            Some((e, rest)) => r matches Ok(x) && entry_view(x) == e && final(data)@ == rest,
            None => r is Err,
        },
{
    reveal(parse_entry);
    let present = read_u8_bool(data)?;
    if !present {
        return Ok(None);
    }
    let secret = read_framed(data)?;
    if T::deserialize(secret).is_err() {
        return Err("invalid secret".to_owned());
    }
    let generator = read_framed(data)?;
    if !xorshift_cbor_check(generator) {
        return Err("invalid random number generator".to_owned());
    }
    Ok(Some(SecretEntry {
        secret: vstd::slice::slice_to_vec(secret),
        generator: vstd::slice::slice_to_vec(generator),
    }))
}

/// Consumes two secret entries and a byte string preceded by its length from the front of
/// `data`.
fn read_half<'a, T: Secret>(data: &mut &'a [u8]) -> (r: Result<
    (Option<SecretEntry>, Option<SecretEntry>, &'a [u8]),
    String,
>)
    ensures
        match parse_half::<T>(old(data)@) {
            Some((e0, e1, bytes, rest)) => r matches Ok((x0, x1, b)) && entry_view(x0) == e0
                && entry_view(x1) == e1 && b@ == bytes && final(data)@ == rest,
            None => r is Err,
        },
{
    reveal(parse_half);
    let e0 = read_entry::<T>(data)?;
    let e1 = read_entry::<T>(data)?;
    let bytes = read_framed(data)?;
    Ok((e0, e1, bytes))
}

/// Puts a store image together from its parts.
fn assemble(
    player: Option<Player>,
    r0: Option<SecretEntry>,
    r1: Option<SecretEntry>,
    root: &[u8],
    p0: Option<SecretEntry>,
    p1: Option<SecretEntry>,
    proof: &[u8],
    seed: Option<Vec<u8>>,
) -> (image: StoreImage)
    ensures
        image@ == (StoreImageView {
            player,
            root_secrets: seq![entry_view(r0), entry_view(r1)],
            root: root@,
            proof_secrets: seq![entry_view(p0), entry_view(p1)],
            proof: proof@,
            seed: bytes_view(seed),
        }),
{
    let image = StoreImage {
        player,
        root_secrets: [r0, r1],
        root: vstd::slice::slice_to_vec(root),
        proof_secrets: [p0, p1],
        proof: vstd::slice::slice_to_vec(proof),
        seed,
    };
    assert(image@.root_secrets =~= seq![entry_view(r0), entry_view(r1)]);
    assert(image@.proof_secrets =~= seq![entry_view(p0), entry_view(p1)]);
    image
}

/// Constructs a store image from its binary representation, with secrets that `T` reads.
///
/// `data` must have been constructed using [write_store].
pub fn read_store<T: Secret>(data: &[u8]) -> (r: Result<StoreImage, String>)
    ensures
        match parse_store::<T>(data@) {
            Some(v) => r matches Ok(x) && x@ == v,
            None => r is Err,
        },
{
    if data.len() < 10 {
        return Err("data.len() < 1 + 2 * size_of::<u32>() + 1".to_owned());
    }
    let byte = data[0];
    let player: Option<Player> = if byte == 0 || byte == 3 {
        None
    } else if byte == 1 || byte == 2 {
        Some(byte - 1)
    } else {
        return Err("the player byte names no player".to_owned());
    };
    assert(player_of_byte(data@[0]) == Some(player));
    let (_, tail) = data.split_at(1);
    assert(tail@ == data@.drop_first());
    let mut cur: &[u8] = tail;
    let (r0, r1, root) = match read_half::<T>(&mut cur) {
        Ok(x) => x,
        Err(e) => return Err(e),
    };
    let ghost d3 = cur@;
    let (p0, p1, proof) = match read_half::<T>(&mut cur) {
        Ok(x) => x,
        Err(e) => return Err(e),
    };
    let ghost d6 = cur@;
    let flag = match read_u8_bool(&mut cur) {
        Ok(b) => b,
        Err(e) => return Err(e),
    };
    let seed: Option<Vec<u8>> = if flag {
        Some(vstd::slice::slice_to_vec(cur))
    } else {
        if cur.len() != 0 {
            return Err("data after the seed flag".to_owned());
        }
        None
    };
    assert(parse_seed(d6) == Some(bytes_view(seed)));
    Ok(assemble(player, r0, r1, root, p0, p1, proof, seed))
}

/// What a store image's representation holds once its root proof and its proof are read too:
/// the image, and the proof that its root proof and proof bytes describe, for consensus states
/// of type `P`; `None` when any part is refused.
pub open spec fn parse_store_proof<T: Secret, P: crate::traits::State>(data: Seq<u8>) -> Option<
    (StoreImageView, crate::authenticated::ProofView<P>),
> {
    match parse_store::<T>(data) {
        None => None,
        Some(v) => match crate::authenticated::parse_root::<P>(v.root) {
            None => None,
            Some(root) => match crate::authenticated::parse_proof::<P>(root, v.proof) {
                None => None,
                Some(proof) => Some((v, proof)),
            },
        },
    }
}

/// Constructs a store from its binary representation: the store image, with secrets that `T`
/// reads, and the proof that its root proof and proof bytes describe.
///
/// `data` must have been constructed using [write_store].
pub fn read_store_proof<T: Secret, P: crate::traits::State>(data: &[u8]) -> (r: Result<
    (StoreImage, crate::authenticated::Proof<P>),
    String,
>)
    ensures
        match parse_store_proof::<T, P>(data@) {
            Some((v, proof)) => r matches Ok((x, p)) && x@ == v && p@ == proof,
            None => r is Err,
        },
{
    let image = read_store::<T>(data)?;
    let root = crate::authenticated::RootProof::<P>::deserialize(image.root.as_slice())?;
    let mut proof = crate::authenticated::Proof::new(root);
    proof.deserialize(image.proof.as_slice())?;
    Ok((image, proof))
}

/// Appends a secret entry, shown or not.
fn write_entry(data: &mut Vec<u8>, e: &Option<SecretEntry>, shown: bool)
    requires
        shown ==> entry_fits(entry_view(*e)),
    ensures
        final(data)@ == old(data)@ + entry_bytes(entry_view(*e), shown),
{
    match e {
        Some(entry) => {
            if shown {
                write_u8_bool(data, true);
                let _ = write_framed(data, entry.secret.as_slice());
                let _ = write_framed(data, entry.generator.as_slice());
            } else {
                write_u8_bool(data, false);
            }
        },
        None => write_u8_bool(data, false),
    }
    proof {
        assert(final(data)@ =~= old(data)@ + entry_bytes(entry_view(*e), shown));
    }
}

/// Generates the binary representation of a store image that shows the secrets `knowledge`
/// covers, and the committed seed only with the first player's secret.
///
/// See [read_store].
pub fn write_store(image: &StoreImage, knowledge: SecretKnowledge) -> (r: Vec<u8>)
    requires
        image_writable(image@, knowledge),
    ensures
        r@ == store_bytes(image@, knowledge),
{
    let show0 = match knowledge {
        SecretKnowledge::Both => true,
        SecretKnowledge::Neither => false,
        SecretKnowledge::Only(p) => p == 0,
    };
    let show1 = match knowledge {
        SecretKnowledge::Both => true,
        SecretKnowledge::Neither => false,
        SecretKnowledge::Only(p) => p == 1,
    };
    let byte: u8 = match image.player {
        Some(p) => p + 1,
        None => match knowledge {
            SecretKnowledge::Neither => 0,
            SecretKnowledge::Both => 3,
            SecretKnowledge::Only(p) => p + 1,
        },
    };
    proof {
        assert(image_writable(image@, knowledge));
        assert(image@.root_secrets[0] == entry_view(image.root_secrets@[0]));
        assert(image@.root_secrets[1] == entry_view(image.root_secrets@[1]));
        assert(image@.proof_secrets[0] == entry_view(image.proof_secrets@[0]));
        assert(image@.proof_secrets[1] == entry_view(image.proof_secrets@[1]));
    }
    let mut data: Vec<u8> = Vec::new();
    write_u8(&mut data, byte);
    write_entry(&mut data, &image.root_secrets[0], show0);
    write_entry(&mut data, &image.root_secrets[1], show1);
    let _ = write_framed(&mut data, image.root.as_slice());
    write_entry(&mut data, &image.proof_secrets[0], show0);
    write_entry(&mut data, &image.proof_secrets[1], show1);
    let _ = write_framed(&mut data, image.proof.as_slice());
    match &image.seed {
        Some(seed) => {
            if show0 {
                write_u8_bool(&mut data, true);
                data.extend_from_slice(seed.as_slice());
            } else {
                write_u8_bool(&mut data, false);
            }
        },
        None => write_u8_bool(&mut data, false),
    }
    proof {
        assert(data@ =~= store_bytes(image@, knowledge));
    }
    data
}

/// The store image that a representation showing what `k` covers reads back as: an owner's
/// store written for one player becomes that player's store, and secrets and the seed that are
/// not shown are gone.
pub open spec fn shown_image(v: StoreImageView, k: SecretKnowledge) -> StoreImageView {
    StoreImageView {
        player: match v.player {
            Some(p) => Some(p),
            None => match k {
                SecretKnowledge::Only(p) => Some(p),
                _ => None,
            },
        },
        root_secrets: seq![
            if knows(k, 0) { v.root_secrets[0] } else { None },
            if knows(k, 1) { v.root_secrets[1] } else { None },
        ],
        root: v.root,
        proof_secrets: seq![
            if knows(k, 0) { v.proof_secrets[0] } else { None },
            if knows(k, 1) { v.proof_secrets[1] } else { None },
        ],
        proof: v.proof,
        seed: if knows(k, 0) { v.seed } else { None },
    }
}

/// Whether a secret entry's secret is one that `T` reads and its generator one that the
/// generator's deserializer reads.
pub open spec fn entry_readable<T: Secret>(e: Option<(Seq<u8>, Seq<u8>)>) -> bool {
    match e {
        Some((secret, generator)) => T::spec_deserialize(secret) is Some && xorshift_cbor_accepts(
            generator,
        ),
        None => true,
    }
}

proof fn lemma_parse_one_framed(x: Seq<u8>, rest: Seq<u8>)
    requires
        x.len() <= u32::MAX,
    ensures
        parse_one(framed(x) + rest) == Some((x, rest)),
{
    let data = framed(x) + rest;
    lemma_le_u32_roundtrip(x.len() as int);
    assert(data.skip(4) =~= x + rest);
    assert(le_u32_value(data) == le_u32_value(le_u32_bytes(x.len() as int)));
    assert((x + rest).take(x.len() as int) =~= x);
    assert((x + rest).skip(x.len() as int) =~= rest);
}

proof fn lemma_parse_entry<T: Secret>(e: Option<(Seq<u8>, Seq<u8>)>, shown: bool, rest: Seq<u8>)
    requires
        entry_fits(e),
        entry_readable::<T>(e),
    ensures
        parse_entry::<T>(entry_bytes(e, shown) + rest) == Some(
            (if shown { e } else { None }, rest),
        ),
{
    reveal(parse_entry);
    let data = entry_bytes(e, shown) + rest;
    if shown && e is Some {
        let (secret, generator) = e->0;
        assert(data.drop_first() =~= framed(secret) + (framed(generator) + rest));
        lemma_parse_one_framed(secret, framed(generator) + rest);
        lemma_parse_one_framed(generator, rest);
    } else {
        assert(data.drop_first() =~= rest);
    }
}

proof fn lemma_parse_half<T: Secret>(
    e0: Option<(Seq<u8>, Seq<u8>)>,
    s0: bool,
    e1: Option<(Seq<u8>, Seq<u8>)>,
    s1: bool,
    bytes: Seq<u8>,
    rest: Seq<u8>,
)
    requires
        entry_fits(e0),
        entry_readable::<T>(e0),
        entry_fits(e1),
        entry_readable::<T>(e1),
        bytes.len() <= u32::MAX,
    ensures
        parse_half::<T>(entry_bytes(e0, s0) + entry_bytes(e1, s1) + framed(bytes) + rest) == Some(
            (if s0 { e0 } else { None }, if s1 { e1 } else { None }, bytes, rest),
        ),
{
    reveal(parse_half);
    let b1 = entry_bytes(e1, s1) + framed(bytes) + rest;
    assert(entry_bytes(e0, s0) + entry_bytes(e1, s1) + framed(bytes) + rest =~= entry_bytes(e0, s0)
        + b1);
    lemma_parse_entry::<T>(e0, s0, b1);
    assert(b1 =~= entry_bytes(e1, s1) + (framed(bytes) + rest));
    lemma_parse_entry::<T>(e1, s1, framed(bytes) + rest);
    lemma_parse_one_framed(bytes, rest);
}

#[verifier::spinoff_prover]
#[verifier::rlimit(40)]
proof fn lemma_parse_store_parts<T: Secret>(
    b: u8,
    r0: Option<(Seq<u8>, Seq<u8>)>,
    r1: Option<(Seq<u8>, Seq<u8>)>,
    root: Seq<u8>,
    p0: Option<(Seq<u8>, Seq<u8>)>,
    p1: Option<(Seq<u8>, Seq<u8>)>,
    proof: Seq<u8>,
    s0: bool,
    s1: bool,
    seed_part: Seq<u8>,
)
    requires
        player_of_byte(b) is Some,
        parse_seed(seed_part) is Some,
        entry_fits(r0) && entry_readable::<T>(r0),
        entry_fits(r1) && entry_readable::<T>(r1),
        entry_fits(p0) && entry_readable::<T>(p0),
        entry_fits(p1) && entry_readable::<T>(p1),
        root.len() <= u32::MAX,
        proof.len() <= u32::MAX,
    ensures
        parse_store::<T>(
            seq![b] + entry_bytes(r0, s0) + entry_bytes(r1, s1) + framed(root) + entry_bytes(p0, s0)
                + entry_bytes(p1, s1) + framed(proof) + seed_part,
        ) == Some(
            StoreImageView {
                player: player_of_byte(b)->0,
                root_secrets: seq![if s0 { r0 } else { None }, if s1 { r1 } else { None }],
                root,
                proof_secrets: seq![if s0 { p0 } else { None }, if s1 { p1 } else { None }],
                proof,
                seed: parse_seed(seed_part)->0,
            },
        ),
{
    let second = entry_bytes(p0, s0) + entry_bytes(p1, s1) + framed(proof) + seed_part;
    let first = entry_bytes(r0, s0) + entry_bytes(r1, s1) + framed(root) + second;
    let data = seq![b] + entry_bytes(r0, s0) + entry_bytes(r1, s1) + framed(root) + entry_bytes(p0, s0)
        + entry_bytes(p1, s1) + framed(proof) + seed_part;
    assert(data =~= seq![b] + first);
    assert(data.drop_first() =~= first);
    assert(data[0] == b);
    lemma_parse_half::<T>(r0, s0, r1, s1, root, second);
    lemma_parse_half::<T>(p0, s0, p1, s1, proof, seed_part);
    let e0 = if s0 { r0 } else { None };
    let e1 = if s1 { r1 } else { None };
    let e2 = if s0 { p0 } else { None };
    let e3 = if s1 { p1 } else { None };
    assert(parse_half::<T>(data.drop_first()) == Some((e0, e1, root, second)));
    assert(parse_half::<T>(second) == Some((e2, e3, proof, seed_part)));
    assert(data.len() >= 10) by {
        assert(entry_bytes(r0, s0).len() >= 1);
        assert(entry_bytes(r1, s1).len() >= 1);
        assert(entry_bytes(p0, s0).len() >= 1);
        assert(entry_bytes(p1, s1).len() >= 1);
        assert(seed_part.len() >= 1);
    }
}

/// Reading back a store image's representation gives the image as far as it was shown: see
/// [shown_image].
pub proof fn lemma_store_roundtrip<T: Secret>(v: StoreImageView, k: SecretKnowledge)
    requires
        image_writable(v, k),
        v.root_secrets.len() == 2,
        v.proof_secrets.len() == 2,
        v.player matches Some(p) ==> p <= 1,
        k matches SecretKnowledge::Only(p) ==> p <= 1,
        entry_readable::<T>(v.root_secrets[0]) && entry_readable::<T>(v.root_secrets[1]),
        entry_readable::<T>(v.proof_secrets[0]) && entry_readable::<T>(v.proof_secrets[1]),
    ensures
        parse_store::<T>(store_bytes(v, k)) == Some(shown_image(v, k)),
{
    let s0 = knows(k, 0);
    let s1 = knows(k, 1);
    let seed_part = if s0 && v.seed is Some {
        seq![1u8] + v.seed->0
    } else {
        seq![0u8]
    };
    let w = shown_image(v, k);
    if s0 && v.seed is Some {
        assert(seed_part.drop_first() =~= v.seed->0);
    }
    assert(parse_seed(seed_part) == Some(w.seed));
    let b = player_byte(v.player, k) as u8;
    assert(player_of_byte(b) == Some(w.player));
    lemma_parse_store_parts::<T>(
        b,
        v.root_secrets[0],
        v.root_secrets[1],
        v.root,
        v.proof_secrets[0],
        v.proof_secrets[1],
        v.proof,
        s0,
        s1,
        seed_part,
    );
    assert(store_bytes(v, k) == seq![b] + entry_bytes(v.root_secrets[0], s0) + entry_bytes(
        v.root_secrets[1],
        s1,
    ) + framed(v.root) + entry_bytes(v.proof_secrets[0], s0) + entry_bytes(v.proof_secrets[1], s1)
        + framed(v.proof) + seed_part);
    let parsed = parse_store::<T>(store_bytes(v, k))->0;
    assert(parsed.root_secrets =~= w.root_secrets);
    assert(parsed.proof_secrets =~= w.proof_secrets);
}

/// A store image written for the other player, or for nobody, does not depend on player `q`'s
/// secrets and generators, nor, for the first player, on the seed it committed to: two images
/// that differ only there have the same representation.
pub proof fn lemma_store_privacy(a: StoreImageView, b: StoreImageView, q: Player)
    requires
        q <= 1,
        a.player == b.player,
        a.root == b.root,
        a.proof == b.proof,
        a.root_secrets.len() == 2,
        b.root_secrets.len() == 2,
        a.proof_secrets.len() == 2,
        b.proof_secrets.len() == 2,
        a.root_secrets[1 - q] == b.root_secrets[1 - q],
        a.proof_secrets[1 - q] == b.proof_secrets[1 - q],
        q == 1 ==> a.seed == b.seed,
    ensures
        store_bytes(a, SecretKnowledge::Only((1 - q) as u8)) == store_bytes(
            b,
            SecretKnowledge::Only((1 - q) as u8),
        ),
        store_bytes(a, SecretKnowledge::Neither) == store_bytes(b, SecretKnowledge::Neither),
{
    if q == 0 {
        assert(a.root_secrets[1] == b.root_secrets[1]);
        assert(a.proof_secrets[1] == b.proof_secrets[1]);
    } else {
        assert(a.root_secrets[0] == b.root_secrets[0]);
        assert(a.proof_secrets[0] == b.proof_secrets[0]);
    }
}

// ---------------------------------------------------------------------------
// What a store submits
// ---------------------------------------------------------------------------

/// The store action the owner submits when a player keeps an exchange waiting, drawing on a
/// fresh random seed: a commitment to the seed, a reply with it, or in place of the first
/// player's committed seed, the seed itself; nothing in other phases.
pub open spec fn timeout_action_spec<R, A: Action>(phase: PhaseView<R>, seed: Seq<u8>) -> Option<
    StoreActionView<A>,
> {
    match phase {
        PhaseView::RandomCommit => Some(StoreActionView::RandomCommit(keccak256_spec(seed))),
        PhaseView::RandomReply { .. } => Some(StoreActionView::RandomReply(seed)),
        PhaseView::RandomReveal { owner_hash, .. } => if !owner_hash {
            Some(StoreActionView::RandomReveal(seed))
        } else {
            None
        },
        _ => None,
    }
}

/// The model of an optional store action.
pub open spec fn action_view<A: Action>(a: Option<StoreAction<A>>) -> Option<StoreActionView<A>> {
    match a {
        Some(x) => Some(x@),
        None => None,
    }
}

/// Chooses the store action the owner submits when a player keeps an exchange waiting.
pub fn timeout_action<R, A: Action>(phase: &Phase<R>, seed: [u8; 16]) -> (r: Option<StoreAction<A>>)
    ensures
        action_view(r) == timeout_action_spec::<R, A>(phase@, seed@),
{
    match phase {
        Phase::RandomCommit => Some(StoreAction::RandomCommit(keccak256(seed.as_slice()))),
        Phase::RandomReply { .. } => Some(StoreAction::RandomReply(vstd::slice::slice_to_vec(seed.as_slice()))),
        Phase::RandomReveal { owner_hash, .. } => if !*owner_hash {
            Some(StoreAction::RandomReveal(vstd::slice::slice_to_vec(seed.as_slice())))
        } else {
            None
        },
        _ => None,
    }
}

/// The seed the owner's store keeps after a timeout step: the seed it commits to on a request
/// for randomness, none once the store is ready, else the one it kept.
pub open spec fn kept_seed<S>(st: StoreStateView<S>, seed: Seq<u8>, committed: Option<Seq<u8>>) -> Option<Seq<u8>> {
    match st {
        StoreStateView::Ready { .. } => None,
        StoreStateView::Pending { phase: PhaseView::RandomCommit, .. } => Some(seed),
        StoreStateView::Pending { .. } => committed,
    }
}

/// Dispatches, for the owner's store, the store action that continues an exchange a player keeps
/// waiting (see [timeout_action_spec]), drawing on the fresh seed `seed`, and updates the seed the
/// store keeps (see [kept_seed]). Only the owner may do this: a player's store is refused and
/// keeps its seed.
pub fn dispatch_timeout<S, A: Action>(
    player: Option<Player>,
    st: &StoreStateModel<S>,
    seed: [u8; 16],
    committed: &mut Option<Vec<u8>>,
) -> (r: Result<Option<StoreAction<A>>, String>)
    ensures
        player is Some ==> r is Err && bytes_view(*final(committed)) == bytes_view(*old(committed)),
        player is None ==> bytes_view(*final(committed)) == kept_seed(
            st@,
            seed@,
            bytes_view(*old(committed)),
        ),
        player is None ==> (r matches Ok(a) && action_view(a) == match st@ {
            StoreStateView::Ready { .. } => None,
            StoreStateView::Pending { phase, .. } => timeout_action_spec::<[u8; 16], A>(phase, seed@),
        }),
{
    if player.is_some() {
        return Err("only the owner dispatches timeouts".to_owned());
    }
    match st {
        StoreStateModel::Ready { .. } => {
            *committed = None;
            Ok(None)
        },
        StoreStateModel::Pending { phase, .. } => {
            let commits = match phase {
                Phase::RandomCommit => true,
                _ => false,
            };
            if commits {
                *committed = Some(vstd::slice::slice_to_vec(seed.as_slice()));
            }
            Ok(timeout_action::<[u8; 16], A>(phase, seed))
        },
    }
}

/// The player who must act in an exchange: the first player commits and (unless the owner
/// committed) reveals the seed, the second replies, and a reveal request names its revealer;
/// `None` when the owner must reveal the seed it committed to, or when nothing is awaited.
pub open spec fn pending_player_spec<R>(phase: PhaseView<R>) -> Option<Player> {
    match phase {
        PhaseView::RandomCommit => Some(0u8),
        PhaseView::RandomReply { .. } => Some(1u8),
        PhaseView::RandomReveal { owner_hash, .. } => if owner_hash { None } else { Some(0u8) },
        PhaseView::Reveal { revealer, .. } => Some(revealer),
        PhaseView::Idle { .. } => None,
    }
}

/// Gets the player who must act if the store is pending; refused when it is ready.
///
/// A pending store always awaits something.
pub fn pending_player<S>(st: &StoreStateModel<S>) -> (r: Result<Option<Player>, String>)
    requires
        st@ matches StoreStateView::Pending { phase, .. } ==> !(phase is Idle),
    ensures
        match st@ {
            StoreStateView::Ready { .. } => r is Err,
            StoreStateView::Pending { phase, .. } => r == Ok::<Option<Player>, String>(
                pending_player_spec(phase),
            ),
        },
{
    match st {
        StoreStateModel::Ready { .. } => Err("the store is not pending".to_owned()),
        StoreStateModel::Pending { phase, .. } => match phase {
            Phase::RandomCommit => Ok(Some(0)),
            Phase::RandomReply { .. } => Ok(Some(1)),
            Phase::RandomReveal { owner_hash, .. } => if *owner_hash {
                Ok(None)
            } else {
                Ok(Some(0))
            },
            Phase::Reveal { revealer, .. } => Ok(Some(*revealer)),
            Phase::Idle { .. } => Ok(None),
        },
    }
}

/// Whether a party takes part in revealing `revealer`'s secret: always when the sender is not
/// checked, else the owner when play is not peer to peer, and the revealer when it is.
pub open spec fn reveals_for(check_sender: bool, player: Option<Player>, p2p: bool, revealer: Player) -> bool {
    !check_sender || (player is None && !p2p) || (player == Some(revealer) && p2p)
}

/// The store action that `player`'s store (the owner's, for `None`) submits next in an
/// exchange: the first player commits to a fresh seed, the second replies with one, the
/// committer reveals the seed it committed to (refused when it has none, or when it does not
/// match the commitment), and a party that takes part in a reveal submits the revealed part of
/// the secret when it knows it (refused when the requested check does not accept it).
pub open spec fn submission_spec<R, A: Action>(
    phase: PhaseView<R>,
    player: Option<Player>,
    seed: Seq<u8>,
    committed: Option<Seq<u8>>,
    check_sender: bool,
    p2p: bool,
    revealed: Option<Seq<u8>>,
    verified: bool,
) -> Result<Option<StoreActionView<A>>, ()> {
    match phase {
        PhaseView::RandomCommit => if player == Some(0u8) {
            Ok(Some(StoreActionView::RandomCommit(keccak256_spec(seed))))
        } else {
            Ok(None)
        },
        PhaseView::RandomReply { .. } => if player == Some(1u8) {
            Ok(Some(StoreActionView::RandomReply(seed)))
        } else {
            Ok(None)
        },
        PhaseView::RandomReveal { hash, owner_hash, .. } => if (!owner_hash && player == Some(0u8))
            || (owner_hash && player is None) {
            match committed {
                None => Err(()),
                Some(c) => if keccak256_spec(c) != hash {
                    Err(())
                } else {
                    Ok(Some(StoreActionView::RandomReveal(c)))
                },
            }
        } else {
            Ok(None)
        },
        PhaseView::Reveal { revealer, .. } => if reveals_for(check_sender, player, p2p, revealer) {
            match revealed {
                None => Ok(None),
                Some(part) => if !verified {
                    Err(())
                } else {
                    Ok(Some(StoreActionView::Reveal(part)))
                },
            }
        } else {
            Ok(None)
        },
        _ => Ok(None),
    }
}

/// The model of an optional byte vector.
pub open spec fn bytes_view(v: Option<Vec<u8>>) -> Option<Seq<u8>> {
    match v {
        Some(x) => Some(x@),
        None => None,
    }
}

/// Chooses the store action that `player`'s store (the owner's, for `None`) submits next in an
/// exchange. `seed` is a fresh random seed, `committed` the seed the store committed to, if
/// any; `revealed` is the part of the revealer's secret that the reveal request asks for, if
/// the store knows that secret, and `verified` what the request's check says of it.
pub fn submission<R, A: Action>(
    phase: &Phase<R>,
    player: Option<Player>,
    seed: [u8; 16],
    committed: Option<Vec<u8>>,
    check_sender: bool,
    p2p: bool,
    revealed: Option<Vec<u8>>,
    verified: bool,
) -> (r: Result<Option<StoreAction<A>>, String>)
    ensures
        match submission_spec::<R, A>(
            phase@,
            player,
            seed@,
            bytes_view(committed),
            check_sender,
            p2p,
            bytes_view(revealed),
            verified,
        ) {
            Ok(a) => r matches Ok(x) && action_view(x) == a,
            Err(_) => r is Err,
        },
{
    let first = match player {
        Some(p) => p == 0,
        None => false,
    };
    let second = match player {
        Some(p) => p == 1,
        None => false,
    };
    match phase {
        Phase::RandomCommit => if first {
            Ok(Some(StoreAction::RandomCommit(keccak256(seed.as_slice()))))
        } else {
            Ok(None)
        },
        Phase::RandomReply { .. } => if second {
            Ok(Some(StoreAction::RandomReply(vstd::slice::slice_to_vec(seed.as_slice()))))
        } else {
            Ok(None)
        },
        Phase::RandomReveal { hash, owner_hash, .. } => {
            if (!*owner_hash && first) || (*owner_hash && player.is_none()) {
                match committed {
                    None => Err("no seed was committed to".to_owned()),
                    Some(c) => {
                        let digest = keccak256(c.as_slice());
                        if !crate::proof_state::slices_equal(digest.as_slice(), hash.as_slice()) {
                            Err("the committed seed does not match the commitment".to_owned())
                        } else {
                            Ok(Some(StoreAction::RandomReveal(c)))
                        }
                    },
                }
            } else {
                Ok(None)
            }
        },
        Phase::Reveal { revealer, .. } => {
            let own = match player {
                Some(p) => p == *revealer,
                None => false,
            };
            if !check_sender || (player.is_none() && !p2p) || (own && p2p) {
                match revealed {
                    None => Ok(None),
                    Some(part) => if !verified {
                        Err("the revealed part is refused".to_owned())
                    } else {
                        Ok(Some(StoreAction::Reveal(part)))
                    },
                }
            } else {
                Ok(None)
            }
        },
        _ => Ok(None),
    }
}

/// What a store submits in an exchange is accepted by the exchange: a commitment by the first
/// player, a reply by the second, the committed seed by its committer (with a sixteen-byte
/// reply and seed), and a checked secret part by the revealer or the owner.
pub proof fn lemma_submission_accepted<R, A: Action>(
    phase: PhaseView<R>,
    player: Option<Player>,
    seed: Seq<u8>,
    committed: Option<Seq<u8>>,
    check_sender: bool,
    p2p: bool,
    revealed: Option<Seq<u8>>,
    verified: bool,
)
    requires
        submission_spec::<R, A>(phase, player, seed, committed, check_sender, p2p, revealed, verified)
            matches Ok(Some(_)),
        phase matches PhaseView::RandomReveal { reply, .. } ==> reply.len() == 16,
        committed matches Some(c) ==> c.len() == 16,
        phase matches PhaseView::Reveal { revealer, .. } ==> (player is None || player == Some(
            revealer,
        )),
    ensures
        ({
            let a = submission_spec::<R, A>(
                phase,
                player,
                seed,
                committed,
                check_sender,
                p2p,
                revealed,
                verified,
            )->Ok_0->0;
            next_phase::<R, A>(phase, player, a, verified) is Some
        }),
{
}

} // verus!
