//! Authenticated state: root proofs, proofs and the diffs that advance them.
use vstd::prelude::*;
use crate::action::{
    action_bytes, action_read, action_writable, lemma_action_roundtrip, parse_action, PlayerAction,
    ProofAction,
};
use crate::crypto::{keccak256, keccak256_spec, recover, recover_spec, Address, Signature};
use crate::error::Error;
use crate::proof_state::{
    address_eq, apply_spec, array20, array65, id_roundtrips, lemma_apply_keeps, lemma_apply_wf,
    lemma_array20, lemma_array65,
    lemma_state_roundtrip, parse_state, player_of, slices_equal, state_bytes, state_serializable,
    ProofState, ProofStateView,
};
use crate::traits::{Player, State, ID};
use crate::utils::{
    concat_all, concat_framed, copy65, framed, le_u32_bytes, le_u32_value, lemma_concat_all_push,
    lemma_concat_framed_push, lemma_le_u32_roundtrip, lemma_parse_framed_roundtrip,
    lemma_parse_framed_split, parse_framed, prepend, read_framed, read_u32_usize, read_u8_bool,
    write_framed, write_u32_usize, write_u8_bool,
};

verus! {

// ---------------------------------------------------------------------------
// Replaying actions
// ---------------------------------------------------------------------------

/// The consensus state after applying `actions` in order, or `None` when one is refused.
pub open spec fn apply_all<S: State>(v: ProofStateView<S>, actions: Seq<ProofAction<S>>) -> Option<
    ProofStateView<S>,
>
    decreases actions.len(),
{
    if actions.len() == 0 {
        Some(v)
    } else {
        match apply_all(v, actions.drop_last()) {
            None => None,
            Some(w) => apply_spec(w, actions.last()),
        }
    }
}

/// Applying one more action applies it to the state the others reach.
pub proof fn lemma_apply_all_push<S: State>(
    v: ProofStateView<S>,
    actions: Seq<ProofAction<S>>,
    action: ProofAction<S>,
)
    ensures
        apply_all(v, actions.push(action)) == match apply_all(v, actions) {
            None => None,
            Some(w) => apply_spec(w, action),
        },
{
    assert(actions.push(action).drop_last() =~= actions);
}

/// Applying `a` then `b` applies `a + b`.
pub proof fn lemma_apply_all_append<S: State>(
    v: ProofStateView<S>,
    a: Seq<ProofAction<S>>,
    b: Seq<ProofAction<S>>,
)
    ensures
        apply_all(v, a + b) == match apply_all(v, a) {
            None => None,
            Some(w) => apply_all(w, b),
        },
    decreases b.len(),
{
    if b.len() == 0 {
        assert(a + b =~= a);
    } else {
        lemma_apply_all_append(v, a, b.drop_last());
        assert((a + b).drop_last() =~= a + b.drop_last());
    }
}

/// Applying actions to a well-formed consensus state keeps it well-formed.
pub proof fn lemma_apply_all_wf<S: State>(v: ProofStateView<S>, actions: Seq<ProofAction<S>>)
    requires
        v.wf(),
        apply_all(v, actions) is Some,
    ensures
        apply_all(v, actions)->0.wf(),
    decreases actions.len(),
{
    if actions.len() > 0 {
        lemma_apply_all_wf(v, actions.drop_last());
        lemma_apply_wf(apply_all(v, actions.drop_last())->0, actions.last());
    }
}

/// When all of `actions` apply, so does every prefix of them.
pub proof fn lemma_apply_all_prefix<S: State>(
    v: ProofStateView<S>,
    actions: Seq<ProofAction<S>>,
    k: int,
)
    requires
        0 <= k <= actions.len(),
        apply_all(v, actions) is Some,
    ensures
        apply_all(v, actions.take(k)) is Some,
    decreases actions.len(),
{
    if k < actions.len() {
        assert(actions.drop_last().take(k) =~= actions.take(k));
        lemma_apply_all_prefix(v, actions.drop_last(), k);
    } else {
        assert(actions.take(k) =~= actions);
    }
}

/// The last consensus state with a binary representation that applying a prefix of `actions`
/// reaches (the empty prefix counts), and the length of that prefix.
pub open spec fn checkpoint<S: State>(v: ProofStateView<S>, actions: Seq<ProofAction<S>>) -> (
    ProofStateView<S>,
    nat,
)
    decreases actions.len(),
{
    if actions.len() == 0 {
        (v, 0)
    } else {
        match apply_all(v, actions) {
            Some(w) => if state_serializable(w) {
                (w, actions.len())
            } else {
                checkpoint(v, actions.drop_last())
            },
            None => checkpoint(v, actions.drop_last()),
        }
    }
}

/// No state that a non-empty prefix of `actions` reaches from `v` has a binary representation.
pub open spec fn unserializable_after<S: State>(
    v: ProofStateView<S>,
    actions: Seq<ProofAction<S>>,
) -> bool {
    forall|k: int|
        1 <= k <= actions.len() ==> ((#[trigger] apply_all(v, actions.take(k))) matches Some(w)
            ==> !state_serializable(w))
}

// ---------------------------------------------------------------------------
// Messages
// ---------------------------------------------------------------------------

/// The binary representations of actions, one after the other.
pub open spec fn actions_message<S: State>(actions: Seq<ProofAction<S>>) -> Seq<u8> {
    concat_all(actions.map_values(|a: ProofAction<S>| action_bytes(a)))
}

/// The binary representations of actions, each preceded by its length.
pub open spec fn actions_framed<S: State>(actions: Seq<ProofAction<S>>) -> Seq<u8> {
    concat_framed(actions.map_values(|a: ProofAction<S>| action_bytes(a)))
}

/// Every action's performer can be written, and its representation's length fits in 32 bits.
pub open spec fn actions_writable<S: State>(actions: Seq<ProofAction<S>>) -> bool {
    forall|i: int|
        0 <= i < actions.len() ==> action_writable(#[trigger] actions[i]) && action_bytes(
            actions[i],
        ).len() <= u32::MAX
}


/// Whether every action's performer can be written and its representation's length fits in 32
/// bits.
fn all_writable<S: State>(actions: &[ProofAction<S>]) -> (r: bool)
    ensures
        r == actions_writable(actions@),
{
    let mut i: usize = 0;
    while i < actions.len()
        invariant
            i <= actions@.len(),
            forall|j: int|
                0 <= j < i ==> action_writable(#[trigger] actions@[j]) && action_bytes(
                    actions@[j],
                ).len() <= u32::MAX,
        decreases actions@.len() - i,
    {
        if actions[i].player == Some(255u8) {
            return false;
        }
        let bytes = actions[i].serialize();
        if bytes.len() > 0xffff_ffff {
            return false;
        }
        i = i + 1;
    }
    true
}

/// Appends the binary representations of `actions` to `data`.
fn extend_with_actions<S: State>(data: &mut Vec<u8>, actions: &[ProofAction<S>])
    requires
        forall|i: int| 0 <= i < actions@.len() ==> action_writable(#[trigger] actions@[i]),
    ensures
        final(data)@ == old(data)@ + actions_message(actions@),
{
    let ghost head = data@;
    let ghost items = actions@.map_values(|a: ProofAction<S>| action_bytes(a));
    let mut i: usize = 0;
    while i < actions.len()
        invariant
            i <= actions@.len(),
            forall|j: int| 0 <= j < actions@.len() ==> action_writable(#[trigger] actions@[j]),
            items == actions@.map_values(|a: ProofAction<S>| action_bytes(a)),
            data@ == head + concat_all(items.take(i as int)),
        decreases actions@.len() - i,
    {
        let bytes = actions[i].serialize();
        data.extend_from_slice(bytes.as_slice());
        proof {
            assert(items.take(i + 1) =~= items.take(i as int).push(items[i as int]));
            lemma_concat_all_push(items.take(i as int), items[i as int]);
            assert(data@ =~= head + concat_all(items.take(i + 1)));
        }
        i = i + 1;
    }
    assert(items.take(i as int) =~= items);
}

/// Appends the binary representations of `actions` to `data`, each preceded by its length.
fn extend_with_framed_actions<S: State>(data: &mut Vec<u8>, actions: &[ProofAction<S>])
    requires
        actions_writable(actions@),
    ensures
        final(data)@ == old(data)@ + actions_framed(actions@),
{
    let ghost head = data@;
    let ghost items = actions@.map_values(|a: ProofAction<S>| action_bytes(a));
    let mut i: usize = 0;
    while i < actions.len()
        invariant
            i <= actions@.len(),
            actions_writable(actions@),
            items == actions@.map_values(|a: ProofAction<S>| action_bytes(a)),
            data@ == head + concat_framed(items.take(i as int)),
        decreases actions@.len() - i,
    {
        let bytes = actions[i].serialize();
        let _ = write_framed(data, bytes.as_slice());
        proof {
            assert(items.take(i + 1) =~= items.take(i as int).push(items[i as int]));
            lemma_concat_framed_push(items.take(i as int), items[i as int]);
        }
        i = i + 1;
    }
    assert(items.take(i as int) =~= items);
}



/// The checkpoint is the state a prefix reaches, has a binary representation when the initial
/// state does, and no longer prefix reaches a state with one.
pub proof fn lemma_checkpoint<S: State>(v: ProofStateView<S>, actions: Seq<ProofAction<S>>)
    requires
        state_serializable(v),
        apply_all(v, actions) is Some,
    ensures
        ({
            let (c, n) = checkpoint(v, actions);
            &&& n <= actions.len()
            &&& apply_all(v, actions.take(n as int)) == Some(c)
            &&& state_serializable(c)
            &&& forall|j: int|
                n < j <= actions.len() ==> !state_serializable(
                    #[trigger] apply_all(v, actions.take(j))->0,
                )
        }),
    decreases actions.len(),
{
    if actions.len() == 0 {
        assert(actions.take(0) =~= actions);
    } else {
        let prev = actions.drop_last();
        lemma_apply_all_prefix(v, actions, prev.len() as int);
        assert(actions.take(prev.len() as int) =~= prev);
        lemma_checkpoint(v, prev);
        let (c, n) = checkpoint(v, actions);
        if state_serializable(apply_all(v, actions)->0) {
            assert(actions.take(actions.len() as int) =~= actions);
        } else {
            assert(actions.take(n as int) =~= prev.take(n as int));
            assert forall|j: int| n < j <= actions.len() implies !state_serializable(
                #[trigger] apply_all(v, actions.take(j))->0,
            ) by {
                if j < actions.len() {
                    assert(actions.take(j) =~= prev.take(j));
                } else {
                    assert(actions.take(j) =~= actions);
                }
            }
        }
    }
}

/// Builds the binary representation of a root proof from its parts.
fn root_bytes_of<S: State>(
    state: &[u8],
    actions: &[ProofAction<S>],
    signature: &Signature,
) -> (r: Vec<u8>)
    requires
        state@.len() <= u32::MAX,
        actions@.len() <= u32::MAX,
        actions_writable(actions@),
    ensures
        r@ == framed(state@) + le_u32_bytes(actions@.len() as int) + actions_framed(actions@)
            + signature@,
{
    let mut data: Vec<u8> = Vec::new();
    let _ = write_framed(&mut data, state);
    let _ = write_u32_usize(&mut data, actions.len());
    extend_with_framed_actions(&mut data, actions);
    data.extend_from_slice(signature.as_slice());
    assert(data@ =~= framed(state@) + le_u32_bytes(actions@.len() as int) + actions_framed(
        actions@,
    ) + signature@);
    data
}

// ---------------------------------------------------------------------------
// Root proofs
// ---------------------------------------------------------------------------

/// Authenticated initial state
pub struct RootProof<S: State> {
    state: ProofState<S>,
    actions: Vec<ProofAction<S>>,
    signature: Signature,
    hash: [u8; 32],
    author: Address,
    latest: ProofState<S>,
}

/// The model of a root proof: the signed consensus state and the actions after it, the
/// signature, the digest, the address that signed, and the state the actions reach.
pub struct RootProofView<S: State> {
    pub state: ProofStateView<S>,
    pub actions: Seq<ProofAction<S>>,
    pub signature: Seq<u8>,
    pub hash: Seq<u8>,
    pub author: Address,
    pub latest: ProofStateView<S>,
}

/// The message a root proof's author signs: the state's binary representation, then the
/// actions'.
pub open spec fn root_message<S: State>(v: RootProofView<S>) -> Seq<u8> {
    state_bytes(v.state) + actions_message(v.actions)
}

/// What the author of a root proof made from `state` and `actions` signs: the binary
/// representation of the last state with one that the actions reach, then the actions after it.
pub open spec fn root_message_of<S: State>(state: ProofStateView<S>, actions: Seq<ProofAction<S>>) -> Seq<u8> {
    state_bytes(checkpoint(state, actions).0) + actions_message(
        actions.skip(checkpoint(state, actions).1 as int),
    )
}

/// Whether the parts of a root proof made from `state` and `actions` fit their 32-bit lengths:
/// the signed state's binary representation, the number of actions after it, and each of them.
pub open spec fn root_fits<S: State>(state: ProofStateView<S>, actions: Seq<ProofAction<S>>) -> bool {
    let kept = actions.skip(checkpoint(state, actions).1 as int);
    &&& state_bytes(checkpoint(state, actions).0).len() <= u32::MAX
    &&& kept.len() <= u32::MAX
    &&& actions_writable(kept)
}

/// The binary representation of a root proof: the state preceded by its length, the number of
/// actions, each action preceded by its length, then the signature.
pub open spec fn root_bytes<S: State>(v: RootProofView<S>) -> Seq<u8> {
    framed(state_bytes(v.state)) + le_u32_bytes(v.actions.len() as int) + actions_framed(v.actions)
        + v.signature
}

impl<S: State> RootProofView<S> {
    /// The signed state is well-formed and has a binary representation, no state the actions
    /// pass through after it has one, the actions reach the latest state, everything fits its
    /// 32-bit length, and the author is the address that signed the message.
    pub open spec fn wf(self) -> bool {
        &&& self.state.wf()
        &&& state_serializable(self.state)
        &&& state_bytes(self.state).len() <= u32::MAX
        &&& self.actions.len() <= u32::MAX
        &&& actions_writable(self.actions)
        &&& apply_all(self.state, self.actions) == Some(self.latest)
        &&& unserializable_after(self.state, self.actions)
        &&& self.signature.len() == 65
        &&& self.hash.len() == 32
        &&& recover_spec(root_message(self), self.signature) == Some(self.author@)
    }
}

impl<S: State> View for RootProof<S> {
    type V = RootProofView<S>;

    closed spec fn view(&self) -> RootProofView<S> {
        RootProofView {
            state: self.state@,
            actions: self.actions@,
            signature: self.signature@,
            hash: self.hash@,
            author: self.author,
            latest: self.latest@,
        }
    }
}

/// A root proof's signature is a 65-byte array: naming the array by its bytes gives it back.
pub proof fn lemma_root_signature<S: State>(root: RootProof<S>)
    ensures
        array65(root@.signature)@ == root@.signature,
{
    lemma_array65(root.signature);
}

/// Replays the representations of actions on `state`: each must be an action that applies and
/// leaves a state without a binary representation. Gives the actions and the state reached.
pub open spec fn replay_root<S: State>(state: ProofStateView<S>, items: Seq<Seq<u8>>) -> Option<
    (Seq<ProofAction<S>>, ProofStateView<S>),
>
    decreases items.len(),
{
    if items.len() == 0 {
        Some((seq![], state))
    } else {
        match replay_root(state, items.drop_last()) {
            None => None,
            Some((actions, latest)) => match parse_action::<S>(items.last()) {
                None => None,
                Some(action) => match apply_spec(latest, action) {
                    None => None,
                    Some(next) => if state_serializable(next) {
                        None
                    } else {
                        Some((actions.push(action), next))
                    },
                },
            },
        }
    }
}

/// A replay that fails on a prefix fails.
proof fn lemma_replay_root_prefix<S: State>(state: ProofStateView<S>, items: Seq<Seq<u8>>, k: int)
    requires
        0 <= k <= items.len(),
        replay_root(state, items.take(k)) is None,
    ensures
        replay_root(state, items) is None,
    decreases items.len(),
{
    if k == items.len() {
        assert(items.take(k) =~= items);
    } else {
        assert(items.drop_last().take(k) =~= items.take(k));
        lemma_replay_root_prefix(state, items.drop_last(), k);
    }
}


/// A successful replay applies the actions read, and passes through no state with a binary
/// representation.
proof fn lemma_replay_root<S: State>(state: ProofStateView<S>, items: Seq<Seq<u8>>)
    requires
        replay_root(state, items) is Some,
    ensures
        ({
            let (actions, latest) = replay_root(state, items)->0;
            &&& actions.len() == items.len()
            &&& apply_all(state, actions) == Some(latest)
            &&& unserializable_after(state, actions)
        }),
    decreases items.len(),
{
    if items.len() > 0 {
        lemma_replay_root(state, items.drop_last());
        let (prev, _) = replay_root(state, items.drop_last())->0;
        let (actions, latest) = replay_root(state, items)->0;
        assert(actions.drop_last() =~= prev);
        assert forall|k: int| 1 <= k <= actions.len() implies ((#[trigger] apply_all(
            state,
            actions.take(k),
        )) matches Some(w) ==> !state_serializable(w)) by {
            if k < actions.len() {
                assert(actions.take(k) =~= prev.take(k));
            } else {
                assert(actions.take(k) =~= actions);
            }
        }
    }
}

/// The root proof read from the framed action representations and what follows them.
#[verifier::opaque]
pub open spec fn root_from_parsed<S: State>(
    state: ProofStateView<S>,
    parsed: Option<(Seq<Seq<u8>>, Seq<u8>)>,
    hash: Seq<u8>,
) -> Option<RootProofView<S>> {
    match parsed {
        None => None,
        Some((items, rest)) => match replay_root(state, items) {
            None => None,
            Some((actions, latest)) => if rest.len() != 65 || !state_serializable(state) || state_bytes(
                state,
            ).len() > u32::MAX || !actions_writable(actions) {
                None
            } else {
                match recover_spec(state_bytes(state) + actions_message(actions), rest) {
                    None => None,
                    Some(author) => Some(
                        RootProofView {
                            state,
                            actions,
                            signature: rest,
                            hash,
                            author: array20(author),
                            latest,
                        },
                    ),
                }
            },
        },
    }
}

/// The root proof read from a binary representation, if it is one; its digest is that of the
/// representation.
#[verifier::opaque]
pub open spec fn parse_root<S: State>(data: Seq<u8>) -> Option<RootProofView<S>> {
    if data.len() < 73 {
        None
    } else {
        let size = le_u32_value(data);
        let r1 = data.skip(4);
        if r1.len() < size {
            None
        } else {
            match parse_state::<S>(r1.take(size)) {
                None => None,
                Some(state) => {
                    let r2 = r1.skip(size);
                    if r2.len() < 4 {
                        None
                    } else {
                        root_from_parsed(
                            state,
                            parse_framed(r2.skip(4), le_u32_value(r2) as nat),
                            keccak256_spec(data),
                        )
                    }
                },
            }
        }
    }
}

/// The version stated at the front of a root proof's binary representation: the state's
/// representation is read by its length, and the version by its own length within it.
pub open spec fn root_version(data: Seq<u8>) -> Option<Seq<u8>> {
    if data.len() < 4 || data.skip(4).len() < le_u32_value(data) {
        None
    } else {
        let state = data.skip(4).take(le_u32_value(data));
        if state.len() < 4 || state.skip(4).len() < le_u32_value(state) {
            None
        } else {
            Some(state.skip(4).take(le_u32_value(state)))
        }
    }
}

impl<S: State> RootProof<S> {
    #[verifier::type_invariant]
    spec fn inv(self) -> bool {
        self@.wf()
    }

    /// Reads the version from a root proof's binary representation.
    ///
    /// `data` must have been constructed using [RootProof::serialize].
    pub fn version(data: &[u8]) -> (r: Result<Vec<u8>, String>)
        ensures
            match root_version(data@) {
                Some(version) => r matches Ok(v) && v@ == version,
                None => r is Err,
            },
    {
        let mut cur = data;
        let size = read_u32_usize(&mut cur)?;
        if cur.len() < size {
            return Err("data.len() < size".to_owned());
        }
        let (head, _) = cur.split_at(size);
        let mut inner = head;
        let inner_size = read_u32_usize(&mut inner)?;
        if inner.len() < inner_size {
            return Err("data.len() < size".to_owned());
        }
        let (version, _) = inner.split_at(inner_size);
        proof {
            assert(head@ =~= data@.skip(4).take(size as int));
            assert(version@ =~= data@.skip(4).take(size as int).skip(4).take(inner_size as int));
        }
        Ok(vstd::slice::slice_to_vec(version))
    }



    /// Constructs a root proof from `state` and `actions`, signed with `sign`.
    ///
    /// `state` must be serializable. The proof is signed on the last state with a binary
    /// representation that the actions reach, with the actions after it.
    pub fn new<F: FnMut(&[u8]) -> Result<Signature, String>>(
        state: ProofState<S>,
        actions: Vec<ProofAction<S>>,
        sign: &mut F,
    ) -> (r: Result<Self, String>)
        requires
            state@.wf(),
            state_serializable(state@),
            forall|m: &[u8]| call_requires(*old(sign), (m,)),
        ensures
            apply_all(state@, actions@) is None ==> r is Err,
            r is Err ==> apply_all(state@, actions@) is None || !root_fits(state@, actions@)
                || exists|out: Result<Signature, String>|
                #[trigger] signs_as(*old(sign), root_message_of(state@, actions@), out) && (
                out matches Ok(signature) ==> recover_spec(
                    root_message_of(state@, actions@),
                    signature@,
                ) is None),
            r matches Ok(root) ==> {
                &&& root@.wf()
                &&& apply_all(state@, actions@) == Some(root@.latest)
                &&& root@.state == checkpoint(state@, actions@).0
                &&& root@.actions == actions@.skip(checkpoint(state@, actions@).1 as int)
                &&& root@.hash == keccak256_spec(root_bytes(root@))
                &&& signs_as(*old(sign), root_message(root@), Ok(array65(root@.signature)))
            },
    {
        let ghost orig = state@;
        let mut latest = state.clone();
        let mut signed = state;
        let mut start: usize = 0;
        let mut i: usize = 0;
        assert(actions@.take(0) =~= Seq::<ProofAction<S>>::empty());
        while i < actions.len()
            invariant
                i <= actions@.len(),
                orig.wf(),
                state_serializable(orig),
                apply_all(orig, actions@.take(i as int)) == Some(latest@),
                latest@.wf(),
                orig == state@,
                checkpoint(orig, actions@.take(i as int)) == (signed@, start as nat),
            decreases actions@.len() - i,
        {
            let ghost prev = latest@;
            proof {
                lemma_apply_all_push(orig, actions@.take(i as int), actions@[i as int]);
                assert(actions@.take(i + 1) =~= actions@.take(i as int).push(actions@[i as int]));
            }
            match latest.apply(&actions[i]) {
                Ok(()) => {},
                Err(e) => {
                    proof {
                        assert(actions@.take(i + 1) + actions@.skip(i + 1) =~= actions@);
                        lemma_apply_all_append(orig, actions@.take(i + 1), actions@.skip(i + 1));
                    }
                    return Err(e);
                },
            }
            proof {
                lemma_apply_wf(prev, actions@[i as int]);
                assert(actions@.take(i + 1).drop_last() =~= actions@.take(i as int));
            }
            if latest.is_serializable() {
                signed = latest.clone();
                start = i + 1;
            }
            i = i + 1;
        }
        proof {
            assert(actions@.take(i as int) =~= actions@);
            lemma_checkpoint(orig, actions@);
            lemma_apply_all_wf(orig, actions@.take(start as int));
        }
        let ghost all = actions@;
        let mut actions = actions;
        let kept = actions.split_off(start);
        proof {
            assert(kept@ =~= all.skip(start as int));
            assert(all.take(start as int) + kept@ =~= all);
        }
        let mut message = match signed.serialize() {
            Some(message) => message,
            None => {
                assert(false);
                return Err("state.serialize().is_none()".to_owned());
            },
        };
        if message.len() > 0xffff_ffff || kept.len() > 0xffff_ffff {
            return Err("length > u32::MAX".to_owned());
        }
        if !all_writable(kept.as_slice()) {
            return Err("action.serialize().len() > u32::MAX".to_owned());
        }
        let state_data = vstd::slice::slice_to_vec(message.as_slice());
        extend_with_actions(&mut message, kept.as_slice());
        let ghost m = message@;
        proof {
            assert(m == root_message_of(orig, all));
        }
        let out = sign(message.as_slice());
        proof {
            assert(signs_as(*old(sign), m, out));
        }
        let signature = match out {
            Ok(signature) => signature,
            Err(e) => {
                return Err(e);
            },
        };
        let author = recover(message.as_slice(), signature.as_slice())?;
        proof {
            lemma_array65(signature);
        }
        let bytes = root_bytes_of(state_data.as_slice(), kept.as_slice(), &signature);
        let hash = keccak256(bytes.as_slice());
        proof {
            let full = all;
            assert forall|k: int| 1 <= k <= kept@.len() implies ((#[trigger] apply_all(
                signed@,
                kept@.take(k),
            )) matches Some(w) ==> !state_serializable(w)) by {
                assert(full.take(start + k) =~= full.take(start as int) + kept@.take(k));
                lemma_apply_all_append(orig, full.take(start as int), kept@.take(k));
            }
            assert(full.take(start as int) + kept@ =~= full);
            lemma_apply_all_append(orig, full.take(start as int), kept@);
        }
        Ok(RootProof { state: signed, actions: kept, signature, hash, author, latest })
    }

    /// Constructs a root proof from its binary representation.
    ///
    /// `data` must have been constructed using [RootProof::serialize].
    #[verifier::rlimit(40)]
    pub fn deserialize(data: &[u8]) -> (r: Result<Self, String>)
        ensures
            match parse_root::<S>(data@) {
                Some(v) => r matches Ok(p) && p@ == v,
                None => r is Err,
            },
    {
        proof {
            reveal(parse_root);
            reveal(root_from_parsed);
        }
        if data.len() < 73 {
            return Err("data.len() < 2 * size_of::<u32>() + size_of::<Signature>()".to_owned());
        }
        let hash = keccak256(data);
        let mut cur = data;
        let size = read_u32_usize(&mut cur)?;
        if cur.len() < size {
            return Err("data.len() < size".to_owned());
        }
        let (head, rest) = cur.split_at(size);
        let state = ProofState::<S>::deserialize(head)?;
        cur = rest;
        let ghost r2 = cur@;
        let length = read_u32_usize(&mut cur)?;
        let ghost body = cur@;
        proof {
            assert(head@ =~= data@.skip(4).take(size as int));
            assert(r2 =~= data@.skip(4).skip(size as int));
            assert(parse_root::<S>(data@) == root_from_parsed(
                state@,
                parse_framed(body, length as nat),
                keccak256_spec(data@),
            ));
            assert(seq![] + seq![] =~= Seq::<Seq<u8>>::empty());
        }
        let mut actions: Vec<ProofAction<S>> = Vec::new();
        let mut latest = state.clone();
        let ghost mut done: Seq<Seq<u8>> = seq![];
        let mut k: usize = 0;
        while k < length
            invariant
                k <= length,
                parse_root::<S>(data@) == root_from_parsed(
                    state@,
                    parse_framed(body, length as nat),
                    keccak256_spec(data@),
                ),
                parse_framed(body, length as nat) == prepend(
                    done,
                    parse_framed(cur@, (length - k) as nat),
                ),
                done.len() == k,
                replay_root(state@, done) == Some((actions@, latest@)),
                latest@.wf(),
            decreases length - k,
        {
            proof {
                reveal(root_from_parsed);
            }
            let ghost before = cur@;
            let item = match read_framed(&mut cur) {
                Ok(item) => item,
                Err(e) => {
                    proof {
                        lemma_parse_framed_split(before, (length - k) as nat);
                    }
                    return Err(e);
                },
            };
            let ghost next_done = done.push(item@);
            proof {
                match parse_framed(cur@, (length - k - 1) as nat) {
                    Some((xs, tail)) => {
                        assert(done + (seq![item@] + xs) =~= next_done + xs);
                        assert((next_done + xs).take(k + 1) =~= next_done);
                    },
                    None => {},
                }
                assert(next_done.drop_last() =~= done);
            }
            let action = match ProofAction::<S>::deserialize(item) {
                Ok(action) => action,
                Err(e) => {
                    proof {
                        if let Some((xs, tail)) = parse_framed(cur@, (length - k - 1) as nat) {
                            lemma_replay_root_prefix(state@, next_done + xs, k + 1);
                        }
                    }
                    return Err(e);
                },
            };
            let ghost prev = latest@;
            match latest.apply(&action) {
                Ok(()) => {},
                Err(e) => {
                    proof {
                        if let Some((xs, tail)) = parse_framed(cur@, (length - k - 1) as nat) {
                            lemma_replay_root_prefix(state@, next_done + xs, k + 1);
                        }
                    }
                    return Err(e);
                },
            }
            proof {
                lemma_apply_wf(prev, action);
            }
            if latest.is_serializable() {
                proof {
                    if let Some((xs, tail)) = parse_framed(cur@, (length - k - 1) as nat) {
                        lemma_replay_root_prefix(state@, next_done + xs, k + 1);
                    }
                }
                return Err("latest.is_serializable()".to_owned());
            }
            actions.push(action);
            proof {
                done = next_done;
            }
            k = k + 1;
        }
        proof {
            assert(done + seq![] =~= done);
        }
        if cur.len() != 65 {
            return Err("data.len() != size_of::<Signature>()".to_owned());
        }
        let signature = copy65(cur);
        let mut message = match state.serialize() {
            Some(message) => message,
            None => return Err("state.serialize().is_none()".to_owned()),
        };
        if message.len() > 0xffff_ffff {
            return Err("state.serialize().len() > u32::MAX".to_owned());
        }
        if !all_writable(actions.as_slice()) {
            return Err("action.serialize().len() > u32::MAX".to_owned());
        }
        extend_with_actions(&mut message, actions.as_slice());
        let author = recover(message.as_slice(), signature.as_slice())?;
        proof {
            lemma_replay_root(state@, done);
            lemma_array20(author);
        }
        Ok(RootProof { state, actions, signature, hash, author, latest })
    }

    /// Generates a binary representation that can be used to reconstruct the root proof.
    ///
    /// See [RootProof::deserialize].
    pub fn serialize(&self) -> (r: Vec<u8>)
        ensures
            r@ == root_bytes(self@),
    {
        proof {
            use_type_invariant(self);
        }
        let mut data: Vec<u8> = Vec::new();
        let state = match self.state.serialize() {
            Some(state) => state,
            None => {
                assert(false);
                return data;
            },
        };
        let _ = write_framed(&mut data, state.as_slice());
        let _ = write_u32_usize(&mut data, self.actions.len());
        extend_with_framed_actions(&mut data, self.actions.as_slice());
        data.extend_from_slice(self.signature.as_slice());
        assert(data@ =~= root_bytes(self@));
        data
    }

    /// Gets the digest of the root proof.
    pub fn hash(&self) -> (r: &[u8; 32])
        ensures
            r@ == self@.hash,
    {
        &self.hash
    }

    /// Gets the author of the root proof.
    pub fn author(&self) -> (r: &Address)
        ensures
            *r == self@.author,
    {
        &self.author
    }

    /// Gets the state of the root proof.
    pub fn state(&self) -> (r: &ProofState<S>)
        ensures
            r@ == self@.latest,
    {
        &self.latest
    }
}


/// Replaying the representations of actions that apply, and pass through no state with a
/// binary representation, gives back the actions and the state they reach.
proof fn lemma_replay_root_of_actions<S: State>(
    state: ProofStateView<S>,
    actions: Seq<ProofAction<S>>,
)
    requires
        actions_writable(actions),
        apply_all(state, actions) is Some,
        unserializable_after(state, actions),
    ensures
        replay_root(state, actions.map_values(|a: ProofAction<S>| action_bytes(a))) == Some(
            (actions, apply_all(state, actions)->0),
        ),
    decreases actions.len(),
{
    let items = actions.map_values(|a: ProofAction<S>| action_bytes(a));
    if actions.len() == 0 {
        assert(actions =~= seq![]);
    } else {
        let prev = actions.drop_last();
        lemma_apply_all_prefix(state, actions, prev.len() as int);
        assert(actions.take(prev.len() as int) =~= prev);
        assert forall|k: int| 1 <= k <= prev.len() implies ((#[trigger] apply_all(
            state,
            prev.take(k),
        )) matches Some(w) ==> !state_serializable(w)) by {
            assert(prev.take(k) =~= actions.take(k));
        }
        assert forall|i: int| 0 <= i < prev.len() implies action_writable(#[trigger] prev[i])
            && action_bytes(prev[i]).len() <= u32::MAX by {
            assert(prev[i] == actions[i]);
        }
        lemma_replay_root_of_actions(state, prev);
        assert(items.drop_last() =~= prev.map_values(|a: ProofAction<S>| action_bytes(a)));
        lemma_action_roundtrip(actions.last());
        assert(actions.take(actions.len() as int) =~= actions);
        assert(prev.push(actions.last()) =~= actions);
    }
}

proof fn lemma_root_tail<S: State>(v: RootProofView<S>)
    requires
        v.wf(),
    ensures
        root_from_parsed(
            v.state,
            parse_framed(actions_framed(v.actions) + v.signature, v.actions.len()),
            v.hash,
        ) == Some(v),
{
    reveal(root_from_parsed);
    let items = v.actions.map_values(|a: ProofAction<S>| action_bytes(a));
    assert forall|i: int| 0 <= i < items.len() implies (#[trigger] items[i]).len() <= u32::MAX by {
        assert(items[i] == action_bytes(v.actions[i]));
    }
    lemma_parse_framed_roundtrip(items, v.signature);
    lemma_replay_root_of_actions(v.state, v.actions);
    lemma_array20(v.author);
}

/// Reading back the binary representation of a well-formed root proof, whose identifier reads
/// back and whose digest is that of its representation, gives back the root proof.
#[verifier::spinoff_prover]
#[verifier::rlimit(50)]
pub proof fn lemma_root_roundtrip<S: State>(v: RootProofView<S>)
    requires
        v.wf(),
        id_roundtrips(v.state.id),
        v.hash == keccak256_spec(root_bytes(v)),
    ensures
        parse_root::<S>(root_bytes(v)) == Some(v),
{
    reveal(parse_root);
    let sb = state_bytes(v.state);
    let fa = actions_framed(v.actions);
    let data = root_bytes(v);
    let r2 = le_u32_bytes(v.actions.len() as int) + fa + v.signature;
    lemma_le_u32_roundtrip(sb.len() as int);
    lemma_le_u32_roundtrip(v.actions.len() as int);
    assert(data =~= le_u32_bytes(sb.len() as int) + (sb + r2));
    assert(data.skip(4) =~= sb + r2);
    assert((sb + r2).take(sb.len() as int) =~= sb);
    assert((sb + r2).skip(sb.len() as int) =~= r2);
    assert(le_u32_value(data) == le_u32_value(le_u32_bytes(sb.len() as int)));
    lemma_state_roundtrip(v.state);
    assert(r2.skip(4) =~= fa + v.signature);
    assert(le_u32_value(r2) == le_u32_value(le_u32_bytes(v.actions.len() as int)));
    lemma_root_tail(v);
}


impl<S: State> Clone for RootProof<S> {
    fn clone(&self) -> (r: Self)
        ensures
            r@ == self@,
    {
        proof {
            use_type_invariant(self);
        }
        let mut actions: Vec<ProofAction<S>> = Vec::new();
        let mut i: usize = 0;
        while i < self.actions.len()
            invariant
                i <= self.actions@.len(),
                actions@ == self.actions@.take(i as int),
            decreases self.actions@.len() - i,
        {
            actions.push(self.actions[i].clone());
            assert(actions@ =~= self.actions@.take(i + 1));
            i = i + 1;
        }
        assert(actions@ =~= self.actions@);
        RootProof {
            state: self.state.clone(),
            actions,
            signature: self.signature,
            hash: self.hash,
            author: self.author,
            latest: self.latest.clone(),
        }
    }
}


// ---------------------------------------------------------------------------
// Diffs
// ---------------------------------------------------------------------------

/// Authenticated state transition
pub struct Diff<S: State> {
    digest: [u8; 32],
    actions: Vec<ProofAction<S>>,
    proof_signature: Signature,
    signature: Signature,
    author: Address,
}

/// The model of a diff: the digest of the proof it applies to, its actions, the signature of
/// the proof message that results, the signature of the diff itself, and its author.
pub struct DiffView<S: State> {
    pub digest: Seq<u8>,
    pub actions: Seq<ProofAction<S>>,
    pub proof_signature: Seq<u8>,
    pub signature: Seq<u8>,
    pub author: Address,
}

/// What a diff's author signs: the proof digest, the number of actions, each action preceded by
/// its length, then the proof signature.
pub open spec fn diff_message<S: State>(v: DiffView<S>) -> Seq<u8> {
    v.digest + le_u32_bytes(v.actions.len() as int) + actions_framed(v.actions) + v.proof_signature
}

/// What a diff with the given digest, actions and proof signature has its author sign.
pub open spec fn diff_message_of<S: State>(
    digest: Seq<u8>,
    actions: Seq<ProofAction<S>>,
    proof_signature: Seq<u8>,
) -> Seq<u8> {
    digest + le_u32_bytes(actions.len() as int) + actions_framed(actions) + proof_signature
}

/// Whether `sign`, in the state it is in, may give `out` when asked to sign a message with the
/// contents `m`.
pub open spec fn signs_as<F: FnMut(&[u8]) -> Result<Signature, String>>(
    sign: F,
    m: Seq<u8>,
    out: Result<Signature, String>,
) -> bool {
    exists|x: &[u8]| x@ == m && #[trigger] call_ensures(sign, (x,), out)
}

/// The binary representation of a diff: its message, then its signature.
pub open spec fn diff_bytes<S: State>(v: DiffView<S>) -> Seq<u8> {
    diff_message(v) + v.signature
}

impl<S: State> DiffView<S> {
    /// The parts have their sizes, and the actions can be written.
    pub open spec fn wf(self) -> bool {
        &&& self.digest.len() == 32
        &&& self.proof_signature.len() == 65
        &&& self.signature.len() == 65
        &&& self.actions.len() <= u32::MAX
        &&& actions_writable(self.actions)
    }
}

impl<S: State> View for Diff<S> {
    type V = DiffView<S>;

    closed spec fn view(&self) -> DiffView<S> {
        DiffView {
            digest: self.digest@,
            actions: self.actions@,
            proof_signature: self.proof_signature@,
            signature: self.signature@,
            author: self.author,
        }
    }
}

/// The actions read from their representations, if each is one.
pub open spec fn parse_actions<S: State>(items: Seq<Seq<u8>>) -> Option<Seq<ProofAction<S>>>
    decreases items.len(),
{
    if items.len() == 0 {
        Some(seq![])
    } else {
        match parse_actions::<S>(items.drop_last()) {
            None => None,
            Some(actions) => match parse_action::<S>(items.last()) {
                None => None,
                Some(action) => Some(actions.push(action)),
            },
        }
    }
}

proof fn lemma_parse_actions_prefix<S: State>(items: Seq<Seq<u8>>, k: int)
    requires
        0 <= k <= items.len(),
        parse_actions::<S>(items.take(k)) is None,
    ensures
        parse_actions::<S>(items) is None,
    decreases items.len(),
{
    if k == items.len() {
        assert(items.take(k) =~= items);
    } else {
        assert(items.drop_last().take(k) =~= items.take(k));
        lemma_parse_actions_prefix::<S>(items.drop_last(), k);
    }
}

proof fn lemma_parse_actions_of<S: State>(actions: Seq<ProofAction<S>>)
    requires
        forall|i: int| 0 <= i < actions.len() ==> action_writable(#[trigger] actions[i]),
    ensures
        parse_actions::<S>(actions.map_values(|a: ProofAction<S>| action_bytes(a))) == Some(actions),
    decreases actions.len(),
{
    if actions.len() == 0 {
        assert(actions =~= seq![]);
    } else {
        let prev = actions.drop_last();
        assert forall|i: int| 0 <= i < prev.len() implies action_writable(#[trigger] prev[i]) by {
            assert(prev[i] == actions[i]);
        }
        lemma_parse_actions_of(prev);
        assert(actions.map_values(|a: ProofAction<S>| action_bytes(a)).drop_last() =~= prev.map_values(
            |a: ProofAction<S>| action_bytes(a),
        ));
        lemma_action_roundtrip(actions.last());
        assert(prev.push(actions.last()) =~= actions);
    }
}

/// The diff read from the framed action representations and what follows them.
pub open spec fn diff_from_parsed<S: State>(
    digest: Seq<u8>,
    parsed: Option<(Seq<Seq<u8>>, Seq<u8>)>,
    author: Address,
) -> Option<DiffView<S>> {
    match parsed {
        None => None,
        Some((items, rest)) => match parse_actions::<S>(items) {
            None => None,
            Some(actions) => if rest.len() != 130 || !actions_writable(actions) {
                None
            } else {
                Some(
                    DiffView {
                        digest,
                        actions,
                        proof_signature: rest.take(65),
                        signature: rest.skip(65),
                        author,
                    },
                )
            },
        },
    }
}

/// The diff read from a binary representation, if it is one: its author is the address that
/// signed everything but the last 65 bytes with the last 65 bytes.
#[verifier::opaque]
pub open spec fn parse_diff<S: State>(data: Seq<u8>) -> Option<DiffView<S>> {
    if data.len() < 166 {
        None
    } else {
        match recover_spec(data.take(data.len() - 65), data.skip(data.len() - 65)) {
            None => None,
            Some(author) => {
                let r = data.skip(32);
                diff_from_parsed(
                    data.take(32),
                    parse_framed(r.skip(4), le_u32_value(r) as nat),
                    array20(author),
                )
            },
        }
    }
}

impl<S: State> Diff<S> {
    #[verifier::type_invariant]
    spec fn inv(self) -> bool {
        self@.wf()
    }

    /// Constructs a diff from its binary representation.
    ///
    /// `data` must have been constructed using [Diff::serialize].
    #[verifier::rlimit(40)]
    pub fn deserialize(data: &[u8]) -> (r: Result<Self, String>)
        ensures
            match parse_diff::<S>(data@) {
                Some(v) => r matches Ok(d) && d@ == v,
                None => r is Err,
            },
    {
        proof {
            reveal(parse_diff);
        }
        if data.len() < 166 {
            return Err("data.len() < size_of::<Hash>() + size_of::<u32>() + 2 * size_of::<Signature>()".to_owned());
        }
        let (signed, last) = data.split_at(data.len() - 65);
        let author = recover(signed, last)?;
        let (head, tail) = data.split_at(32);
        let digest = crate::utils::copy32(head);
        let mut cur = tail;
        let length = read_u32_usize(&mut cur)?;
        let ghost body = cur@;
        proof {
            lemma_array20(author);
            assert(signed@ =~= data@.take(data@.len() - 65));
            assert(last@ =~= data@.skip(data@.len() - 65));
            assert(tail@ =~= data@.skip(32));
            assert(parse_diff::<S>(data@) == diff_from_parsed::<S>(
                digest@,
                parse_framed(body, length as nat),
                author,
            ));
        }
        let mut actions: Vec<ProofAction<S>> = Vec::new();
        let ghost mut done: Seq<Seq<u8>> = seq![];
        let mut k: usize = 0;
        while k < length
            invariant
                k <= length,
                parse_diff::<S>(data@) == diff_from_parsed::<S>(
                    digest@,
                    parse_framed(body, length as nat),
                    author,
                ),
                parse_framed(body, length as nat) == prepend(
                    done,
                    parse_framed(cur@, (length - k) as nat),
                ),
                done.len() == k,
                actions@.len() == k,
                length <= u32::MAX,
                parse_actions::<S>(done) == Some(actions@),
            decreases length - k,
        {
            let ghost before = cur@;
            let item = match read_framed(&mut cur) {
                Ok(item) => item,
                Err(e) => {
                    proof {
                        lemma_parse_framed_split(before, (length - k) as nat);
                    }
                    return Err(e);
                },
            };
            let ghost next_done = done.push(item@);
            proof {
                match parse_framed(cur@, (length - k - 1) as nat) {
                    Some((xs, tail)) => {
                        assert(done + (seq![item@] + xs) =~= next_done + xs);
                        assert((next_done + xs).take(k + 1) =~= next_done);
                    },
                    None => {},
                }
                assert(next_done.drop_last() =~= done);
            }
            let action = match ProofAction::<S>::deserialize(item) {
                Ok(action) => action,
                Err(e) => {
                    proof {
                        if let Some((xs, tail)) = parse_framed(cur@, (length - k - 1) as nat) {
                            lemma_parse_actions_prefix::<S>(next_done + xs, k + 1);
                        }
                    }
                    return Err(e);
                },
            };
            actions.push(action);
            proof {
                done = next_done;
            }
            k = k + 1;
        }
        proof {
            assert(done + seq![] =~= done);
        }
        if cur.len() != 130 {
            return Err("data.len() != 2 * size_of::<Signature>()".to_owned());
        }
        if !all_writable(actions.as_slice()) {
            return Err("action.serialize().len() > u32::MAX".to_owned());
        }
        let (first, second) = cur.split_at(65);
        let proof_signature = copy65(first);
        let signature = copy65(second);
        Ok(Diff { digest, actions, proof_signature, signature, author })
    }

    /// Generates a binary representation that can be used to reconstruct the diff.
    ///
    /// See [Diff::deserialize].
    pub fn serialize(&self) -> (r: Vec<u8>)
        ensures
            r@ == diff_bytes(self@),
    {
        proof {
            use_type_invariant(self);
        }
        let mut data = self.message();
        data.extend_from_slice(self.signature.as_slice());
        data
    }

    /// Everything the diff's author signs.
    fn message(&self) -> (r: Vec<u8>)
        requires
            self@.wf(),
        ensures
            r@ == diff_message(self@),
    {
        let mut data: Vec<u8> = Vec::new();
        data.extend_from_slice(self.digest.as_slice());
        let _ = write_u32_usize(&mut data, self.actions.len());
        extend_with_framed_actions(&mut data, self.actions.as_slice());
        data.extend_from_slice(self.proof_signature.as_slice());
        assert(data@ =~= diff_message(self@));
        data
    }

    /// Gets the hash of the proof the diff was constructed on.
    pub fn proof_hash(&self) -> (r: &[u8; 32])
        ensures
            r@ == self@.digest,
    {
        &self.digest
    }

    /// Gets the actions of the diff.
    pub fn actions(&self) -> (r: &[ProofAction<S>])
        ensures
            r@ == self@.actions,
    {
        self.actions.as_slice()
    }

    /// Gets the author of the diff.
    pub fn author(&self) -> (r: &Address)
        ensures
            *r == self@.author,
    {
        &self.author
    }

    /// Constructs a diff of `actions` on the proof with digest `digest`, and signs it with `sign`.
    fn new<F: FnMut(&[u8]) -> Result<Signature, String>>(
        digest: [u8; 32],
        actions: Vec<ProofAction<S>>,
        proof_signature: Signature,
        sign: &mut F,
        author: &Address,
    ) -> (r: Result<Self, String>)
        requires
            actions@.len() <= u32::MAX,
            actions_writable(actions@),
            forall|f: F, m: &[u8]| call_requires(f, (m,)),
        ensures
            r matches Ok(d) ==> {
                &&& d@.digest == digest@
                &&& d@.actions == actions@
                &&& d@.proof_signature == proof_signature@
                &&& d@.author == *author
                &&& signs_as(
                    *old(sign),
                    diff_message_of(digest@, actions@, proof_signature@),
                    Ok(array65(d@.signature)),
                )
            },
            r is Err ==> exists|e: String|
                #[trigger] signs_as(
                    *old(sign),
                    diff_message_of(digest@, actions@, proof_signature@),
                    Err::<Signature, String>(e),
                ),
    {
        let unsigned = Diff { digest, actions, proof_signature, signature: [0u8; 65], author: *author };
        let message = unsigned.message();
        let ghost m = message@;
        let out = sign(message.as_slice());
        proof {
            assert(m == diff_message_of(digest@, actions@, proof_signature@));
            assert(signs_as(*old(sign), m, out));
        }
        let signature = match out {
            Ok(signature) => signature,
            Err(e) => {
                return Err(e);
            },
        };
        let Diff { digest, actions, proof_signature, author, .. } = unsigned;
        let d = Diff { digest, actions, proof_signature, signature, author };
        proof {
            lemma_array65(signature);
        }
        Ok(d)
    }
}

/// Reading back the binary representation of a well-formed diff, whose author is the address
/// that signed its message with its signature, gives back the diff.
pub proof fn lemma_diff_roundtrip<S: State>(v: DiffView<S>)
    requires
        v.wf(),
        recover_spec(diff_message(v), v.signature) == Some(v.author@),
    ensures
        parse_diff::<S>(diff_bytes(v)) == Some(v),
{
    reveal(parse_diff);
    lemma_array20(v.author);
    let data = diff_bytes(v);
    let items = v.actions.map_values(|a: ProofAction<S>| action_bytes(a));
    let rest = v.proof_signature + v.signature;
    let fa = actions_framed(v.actions);
    assert(data.take(data.len() - 65) =~= diff_message(v));
    assert(data.skip(data.len() - 65) =~= v.signature);
    assert(data.take(32) =~= v.digest);
    let r = data.skip(32);
    assert(r =~= le_u32_bytes(v.actions.len() as int) + (fa + rest));
    lemma_le_u32_roundtrip(v.actions.len() as int);
    assert(r.skip(4) =~= fa + rest);
    assert(le_u32_value(r) == le_u32_value(le_u32_bytes(v.actions.len() as int)));
    assert forall|i: int| 0 <= i < items.len() implies (#[trigger] items[i]).len() <= u32::MAX by {
        assert(items[i] == action_bytes(v.actions[i]));
    }
    lemma_parse_framed_roundtrip(items, rest);
    lemma_parse_actions_of(v.actions);
    assert(rest.take(65) =~= v.proof_signature);
    assert(rest.skip(65) =~= v.signature);
}


// ---------------------------------------------------------------------------
// Proofs
// ---------------------------------------------------------------------------

/// A signed checkpoint: a consensus state, the range of the proof's actions signed after it, and
/// the signature of the state and those actions.
struct PlayerProof<S: State> {
    state: ProofState<S>,
    start: usize,
    end: usize,
    signature: Signature,
}

/// The model of a signed checkpoint.
pub struct PlayerProofView<S: State> {
    pub state: ProofStateView<S>,
    pub start: int,
    pub end: int,
    pub signature: Seq<u8>,
}

impl<S: State> View for PlayerProof<S> {
    type V = PlayerProofView<S>;

    closed spec fn view(&self) -> PlayerProofView<S> {
        PlayerProofView {
            state: self.state@,
            start: self.start as int,
            end: self.end as int,
            signature: self.signature@,
        }
    }
}

impl<S: State> Clone for PlayerProof<S> {
    fn clone(&self) -> (r: Self)
        ensures
            r@ == self@,
    {
        PlayerProof {
            state: self.state.clone(),
            start: self.start,
            end: self.end,
            signature: self.signature,
        }
    }
}

/// Authenticated state
pub struct Proof<S: State> {
    root: RootProof<S>,
    actions: Vec<ProofAction<S>>,
    proofs: Vec<Option<PlayerProof<S>>>,
    hash: [u8; 32],
    state: ProofState<S>,
}

/// The model of a proof: its root proof, the actions it holds, the owner's and each player's
/// signed checkpoint (positions `0`, `1` and `2`), its digest and its latest state.
pub struct ProofView<S: State> {
    pub root: RootProofView<S>,
    pub actions: Seq<ProofAction<S>>,
    pub proofs: Seq<Option<PlayerProofView<S>>>,
    pub hash: Seq<u8>,
    pub state: ProofStateView<S>,
}

/// The models of signed checkpoints.
spec fn proofs_view<S: State>(proofs: Seq<Option<PlayerProof<S>>>) -> Seq<
    Option<PlayerProofView<S>>,
> {
    proofs.map_values(|p: Option<PlayerProof<S>>| slot_view(p))
}

impl<S: State> View for Proof<S> {
    type V = ProofView<S>;

    closed spec fn view(&self) -> ProofView<S> {
        ProofView {
            root: self.root@,
            actions: self.actions@,
            proofs: proofs_view(self.proofs@),
            hash: self.hash@,
            state: self.state@,
        }
    }
}

/// The position of the checkpoint whose range ends last (the last such position on ties), or
/// `-1` when there is none.
pub open spec fn latest_index<S: State>(proofs: Seq<Option<PlayerProofView<S>>>) -> int
    decreases proofs.len(),
{
    if proofs.len() == 0 {
        -1
    } else {
        let prev = latest_index(proofs.drop_last());
        match proofs.last() {
            Some(p) => if prev < 0 || p.end >= proofs[prev]->0.end {
                proofs.len() - 1
            } else {
                prev
            },
            None => prev,
        }
    }
}

/// The position of the first checkpoint whose range starts at the first action, or `-1` when
/// there is none.
pub open spec fn base_index<S: State>(proofs: Seq<Option<PlayerProofView<S>>>) -> int
    decreases proofs.len(),
{
    if proofs.len() == 0 {
        -1
    } else {
        let prev = base_index(proofs.drop_last());
        if prev >= 0 {
            prev
        } else if proofs.last() matches Some(p) && p.start == 0 {
            proofs.len() - 1
        } else {
            -1
        }
    }
}

/// A checkpoint's state is well-formed with a binary representation that fits in 32 bits, and
/// its range lies within the proof's `count` actions.
pub open spec fn player_proof_wf<S: State>(p: PlayerProofView<S>, count: int) -> bool {
    &&& 0 <= p.start <= p.end <= count
    &&& p.signature.len() == 65
    &&& p.state.wf()
    &&& state_serializable(p.state)
    &&& state_bytes(p.state).len() <= u32::MAX
}


/// A filled checkpoint slot is well-formed within `actions`, and the actions after its start
/// take its state to `latest`.
#[verifier::opaque]
pub open spec fn slot_wf<S: State>(
    p: PlayerProofView<S>,
    actions: Seq<ProofAction<S>>,
    latest: ProofStateView<S>,
) -> bool {
    &&& player_proof_wf(p, actions.len() as int)
    &&& apply_all(p.state, actions.skip(p.start)) == Some(latest)
}

/// The binary representation of a checkpoint slot: `0` when empty, else `1`, the range's ends as
/// four little-endian bytes each, then the signature.
pub open spec fn player_proof_bytes<S: State>(p: Option<PlayerProofView<S>>) -> Seq<u8> {
    match p {
        None => seq![0u8],
        Some(q) => seq![1u8] + le_u32_bytes(q.start) + le_u32_bytes(q.end) + q.signature,
    }
}

/// The binary representations of the checkpoint slots, one after the other.
pub open spec fn proofs_bytes<S: State>(proofs: Seq<Option<PlayerProofView<S>>>) -> Seq<u8> {
    concat_all(proofs.map_values(|p: Option<PlayerProofView<S>>| player_proof_bytes(p)))
}

/// The binary representation of a proof: the state of its first checkpoint that starts at the
/// first action, preceded by its length, the number of actions, each action preceded by its
/// length, then the checkpoint slots.
pub open spec fn proof_bytes<S: State>(v: ProofView<S>) -> Seq<u8> {
    framed(state_bytes(v.proofs[base_index(v.proofs)]->0.state)) + le_u32_bytes(
        v.actions.len() as int,
    ) + actions_framed(v.actions) + proofs_bytes(v.proofs)
}

impl<S: State> ProofView<S> {
    /// The root proof is well-formed; there are three checkpoint slots, one of which starts at
    /// the first action; the owner's slot is empty only when both players' are filled; each
    /// checkpoint is well-formed, and the actions after its start take its state to the latest
    /// state; and the actions can be written.
    pub open spec fn wf(self) -> bool {
        &&& self.root.wf()
        &&& self.proofs.len() == 3
        &&& base_index(self.proofs) >= 0
        &&& forall|i: int|
            0 <= i < 3 ==> ((#[trigger] self.proofs[i]) matches Some(p) ==> slot_wf(
                p,
                self.actions,
                self.state,
            ))
        &&& (self.proofs[0] is None ==> self.proofs[1] is Some && self.proofs[2] is Some)
        &&& self.actions.len() <= u32::MAX
        &&& actions_writable(self.actions)
        &&& self.state.wf()
        &&& self.hash.len() == 32
    }
}

/// Clones a sequence of actions.
fn clone_actions<S: State>(actions: &[ProofAction<S>]) -> (r: Vec<ProofAction<S>>)
    ensures
        r@ == actions@,
{
    let mut out: Vec<ProofAction<S>> = Vec::new();
    let mut i: usize = 0;
    while i < actions.len()
        invariant
            i <= actions@.len(),
            out@ == actions@.take(i as int),
        decreases actions@.len() - i,
    {
        out.push(actions[i].clone());
        assert(out@ =~= actions@.take(i + 1));
        i = i + 1;
    }
    assert(out@ =~= actions@);
    out
}

/// Appends the binary representations of the checkpoint slots.
fn extend_with_proofs<S: State>(data: &mut Vec<u8>, proofs: &Vec<Option<PlayerProof<S>>>)
    requires
        forall|i: int|
            0 <= i < proofs@.len() ==> ((#[trigger] proofs@[i]) matches Some(p) ==> p.start
                <= u32::MAX && p.end <= u32::MAX),
    ensures
        final(data)@ == old(data)@ + proofs_bytes(proofs_view(proofs@)),
{
    let ghost head = data@;
    let ghost items = proofs_view(proofs@).map_values(
        |p: Option<PlayerProofView<S>>| player_proof_bytes(p),
    );
    let mut i: usize = 0;
    while i < proofs.len()
        invariant
            i <= proofs@.len(),
            forall|j: int|
                0 <= j < proofs@.len() ==> ((#[trigger] proofs@[j]) matches Some(p) ==> p.start
                    <= u32::MAX && p.end <= u32::MAX),
            items == proofs_view(proofs@).map_values(
                |p: Option<PlayerProofView<S>>| player_proof_bytes(p),
            ),
            data@ == head + concat_all(items.take(i as int)),
        decreases proofs@.len() - i,
    {
        let ghost before = data@;
        match &proofs[i] {
            Some(p) => {
                write_u8_bool(data, true);
                let _ = write_u32_usize(data, p.start);
                let _ = write_u32_usize(data, p.end);
                data.extend_from_slice(p.signature.as_slice());
            },
            None => {
                write_u8_bool(data, false);
            },
        }
        proof {
            assert(data@ =~= before + items[i as int]);
            assert(items.take(i + 1) =~= items.take(i as int).push(items[i as int]));
            lemma_concat_all_push(items.take(i as int), items[i as int]);
        }
        i = i + 1;
    }
    assert(items.take(i as int) =~= items);
}

impl<S: State> Proof<S> {
    #[verifier::type_invariant]
    spec fn inv(self) -> bool {
        self@.wf()
    }

    /// Constructs a bare proof from a root proof.
    pub fn new(root: RootProof<S>) -> (r: Self)
        ensures
            r@.root == root@,
            r@.actions == root@.actions,
            r@.proofs == seq![
                Some(
                    PlayerProofView {
                        state: root@.state,
                        start: 0,
                        end: root@.actions.len() as int,
                        signature: root@.signature,
                    },
                ),
                None,
                None,
            ],
            r@.state == root@.latest,
            r@.hash == keccak256_spec(proof_bytes(r@)),
            checkpoints_agree(r@),
    {
        proof {
            use_type_invariant(&root);
        }
        let actions = clone_actions(root.actions.as_slice());
        let mut proofs: Vec<Option<PlayerProof<S>>> = Vec::new();
        proofs.push(
            Some(
                PlayerProof {
                    state: root.state.clone(),
                    start: 0,
                    end: root.actions.len(),
                    signature: root.signature,
                },
            ),
        );
        proofs.push(None);
        proofs.push(None);
        let state = root.latest.clone();
        proof {
            let pp = PlayerProofView {
                state: root@.state,
                start: 0,
                end: root@.actions.len() as int,
                signature: root@.signature,
            };
            let pv = proofs_view(proofs@);
            reveal(slot_wf);
            assert(pv =~= seq![Some(pp), None, None]);
            lemma_owner_only(pp);
            assert(root@.actions.skip(0) =~= root@.actions);
            assert(slot_wf(pp, actions@, state@));
            assert forall|i: int| 0 <= i < 3 implies ((#[trigger] pv[i]) matches Some(p)
                ==> slot_wf(p, actions@, state@)) by {
                if i == 0 {
                    assert(pv[i] == Some(pp));
                }
            }
            lemma_apply_all_wf(root@.state, root@.actions);
        }
        let mut proof = Proof { root, actions, proofs, hash: [0u8; 32], state };
        let bytes = proof.serialize();
        proof.hash = keccak256(bytes.as_slice());
        proof {
            lemma_new_agrees(proof@);
        }
        proof
    }

    /// Generates a binary representation that can be used to reconstruct the proof.
    ///
    /// See [Proof::deserialize].
    #[verifier::rlimit(40)]
    pub fn serialize(&self) -> (r: Vec<u8>)
        ensures
            r@ == proof_bytes(self@),
    {
        proof {
            use_type_invariant(self);
            lemma_base_index(self@.proofs);
            reveal(slot_wf);
        }
        let base = base_position(&self.proofs);
        let mut data: Vec<u8> = Vec::new();
        match &self.proofs[base] {
            Some(p) => {
                proof {
                    assert(self@.proofs[base as int] == Some(p@));
                }
                match p.state.serialize() {
                    Some(bytes) => {
                        let _ = write_framed(&mut data, bytes.as_slice());
                    },
                    None => {
                        assert(false);
                    },
                }
            },
            None => {
                assert(self@.proofs[base as int] is None);
                assert(false);
            },
        }
        let _ = write_u32_usize(&mut data, self.actions.len());
        extend_with_framed_actions(&mut data, self.actions.as_slice());
        proof {
            assert forall|i: int| 0 <= i < self.proofs@.len() implies ((#[trigger] self.proofs@[i])
                matches Some(p) ==> p.start <= u32::MAX && p.end <= u32::MAX) by {
                assert(self@.proofs[i] == match self.proofs@[i] {
                    Some(q) => Some(q@),
                    None => None,
                });
            }
        }
        extend_with_proofs(&mut data, &self.proofs);
        assert(data@ =~= proof_bytes(self@));
        data
    }

    /// Gets the digest of the proof.
    pub fn hash(&self) -> (r: &[u8; 32])
        ensures
            r@ == self@.hash,
    {
        &self.hash
    }

    /// Gets the state of the proof.
    pub fn state(&self) -> (r: &ProofState<S>)
        ensures
            r@ == self@.state,
    {
        &self.state
    }
}


/// With only the owner's checkpoint, it is both the first and the latest.
proof fn lemma_owner_only<S: State>(pp: PlayerProofView<S>)
    requires
        pp.start == 0,
    ensures
        base_index(seq![Some(pp), None, None]) == 0,
        latest_index(seq![Some(pp), None, None]) == 0,
{
    let s = seq![Some(pp), None, None];
    let e = Seq::<Option<PlayerProofView<S>>>::empty();
    assert(s.drop_last() =~= seq![Some(pp), None]);
    assert(s.drop_last().drop_last() =~= seq![Some(pp)]);
    assert(seq![Some(pp)].drop_last() =~= e);
    assert(base_index(e) == -1);
    assert(latest_index(e) == -1);
    assert(seq![Some(pp)].last() == Some(pp));
    assert(base_index(seq![Some(pp)]) == 0);
    assert(latest_index(seq![Some(pp)]) == 0);
    let two = seq![Some(pp), None];
    assert(two.drop_last() =~= seq![Some(pp)]);
    assert(two.last() == None::<PlayerProofView<S>>);
    assert(base_index(two) == 0);
    assert(latest_index(two) == 0);
    assert(s.drop_last() =~= two);
    assert(s.last() == None::<PlayerProofView<S>>);
}

/// Extending a sequence past the first checkpoint that starts at the first action keeps it.
proof fn lemma_base_index_extend<S: State>(s: Seq<Option<PlayerProofView<S>>>, k: int)
    requires
        0 <= k <= s.len(),
        base_index(s.take(k)) >= 0,
    ensures
        base_index(s) == base_index(s.take(k)),
    decreases s.len(),
{
    if k == s.len() {
        assert(s.take(k) =~= s);
    } else {
        assert(s.drop_last().take(k) =~= s.take(k));
        lemma_base_index_extend(s.drop_last(), k);
    }
}

/// The first checkpoint is at the position its index names, and it starts at the first action.
proof fn lemma_base_index<S: State>(s: Seq<Option<PlayerProofView<S>>>)
    requires
        base_index(s) >= 0,
    ensures
        base_index(s) < s.len(),
        s[base_index(s)] matches Some(p) && p.start == 0,
    decreases s.len(),
{
    if base_index(s.drop_last()) >= 0 {
        lemma_base_index(s.drop_last());
    }
}

/// The position of the first checkpoint that starts at the first action.
fn base_position<S: State>(proofs: &Vec<Option<PlayerProof<S>>>) -> (r: usize)
    requires
        proofs@.len() == 3,
        base_index(proofs_view(proofs@)) >= 0,
    ensures
        r == base_index(proofs_view(proofs@)),
        r < 3,
{
    let ghost pv = proofs_view(proofs@);
    let mut i: usize = 0;
    assert(pv.take(0) =~= Seq::<Option<PlayerProofView<S>>>::empty());
    while i < 3
        invariant
            i <= 3,
            proofs@.len() == 3,
            pv == proofs_view(proofs@),
            base_index(pv) >= 0,
            base_index(pv.take(i as int)) < 0,
        decreases 3 - i,
    {
        proof {
            assert(pv.take(i + 1).drop_last() =~= pv.take(i as int));
        }
        if let Some(p) = &proofs[i] {
            if p.start == 0 {
                proof {
                    assert(pv[i as int] == Some(p@));
                    lemma_base_index_extend(pv, i + 1);
                }
                return i;
            }
        }
        proof {
            assert(pv[i as int] == match proofs@[i as int] {
                Some(q) => Some(q@),
                None => None,
            });
        }
        i = i + 1;
    }
    proof {
        assert(pv.take(3) =~= pv);
    }
    0
}


// ---------------------------------------------------------------------------
// Applying diffs
// ---------------------------------------------------------------------------

/// Who a diff's author acts as: `Some(None)` for the root author, `Some(Some(p))` for player
/// `p` (by address, certified subkey or approved subkey), `None` for anybody else.
pub open spec fn diff_player<S: State>(v: ProofView<S>, d: DiffView<S>) -> Option<Option<Player>> {
    if d.author == v.root.author {
        Some(None)
    } else {
        match player_of(v.state, d.author, v.root.author) {
            Some(p) => Some(Some(p)),
            None => None,
        }
    }
}

/// Whether an author acting as `player` may submit `action`: a play must be the author's own,
/// and only the root author approves subkeys.
pub open spec fn action_permitted<S: State>(action: ProofAction<S>, player: Option<Player>) -> bool {
    match action.action {
        PlayerAction::Play(_) => action.player == player,
        PlayerAction::Certify { .. } => true,
        PlayerAction::Approve { .. } => player is None,
    }
}

/// After the first `n` actions of a diff: the latest state, the last checkpoint state with a
/// binary representation, and its position in the proof's actions followed by the diff's. It
/// starts from the proof's latest state and latest checkpoint; `None` when an action is not
/// permitted or is refused.
pub open spec fn scan_diff<S: State>(
    v: ProofView<S>,
    actions: Seq<ProofAction<S>>,
    player: Option<Player>,
    n: nat,
) -> Option<(ProofStateView<S>, ProofStateView<S>, int)>
    decreases n,
{
    if n == 0 {
        let lp = v.proofs[latest_index(v.proofs)]->0;
        Some((v.state, lp.state, lp.start))
    } else {
        match scan_diff(v, actions, player, (n - 1) as nat) {
            None => None,
            Some((latest, state, start)) => {
                let action = actions[n - 1];
                if !action_permitted(action, player) {
                    None
                } else {
                    match apply_spec(latest, action) {
                        None => None,
                        Some(next) => if state_serializable(next) {
                            Some((next, next, (v.actions.len() + n) as int))
                        } else {
                            Some((next, state, start))
                        },
                    }
                }
            },
        }
    }
}

/// The smaller of two integers.
pub open spec fn min_int(a: int, b: int) -> int {
    if a <= b { a } else { b }
}

/// Where the actions kept after a player's diff begin: the earliest start among the checkpoints
/// that stay, the player's new one included (the owner's is left out when both players have
/// one).
pub open spec fn player_offset<S: State>(proofs: Seq<Option<PlayerProofView<S>>>, p: Player, start: int) -> int {
    let other = 2 - p;
    match proofs[other] {
        Some(q) => min_int(start, q.start),
        None => match proofs[0] {
            Some(q) => min_int(start, q.start),
            None => start,
        },
    }
}


/// Whether a slot holds a checkpoint that ends at or before `offset`.
pub open spec fn ends_by<S: State>(p: Option<PlayerProofView<S>>, offset: int) -> bool {
    match p {
        Some(q) => q.end <= offset,
        None => false,
    }
}

/// Whether a slot holds a checkpoint that starts before `offset`.
pub open spec fn starts_before<S: State>(p: Option<PlayerProofView<S>>, offset: int) -> bool {
    match p {
        Some(q) => q.start < offset,
        None => false,
    }
}

/// A checkpoint moved `offset` actions earlier.
pub open spec fn shift_slot<S: State>(p: Option<PlayerProofView<S>>, offset: int) -> Option<
    PlayerProofView<S>,
> {
    match p {
        Some(q) => Some(PlayerProofView { start: q.start - offset, end: q.end - offset, ..q }),
        None => None,
    }
}

/// The proof with the given actions, checkpoints and latest state, and the digest of its binary
/// representation; refused (not by the author's fault) when the actions or the new checkpoint's
/// state do not fit their 32-bit lengths.
pub open spec fn seal<S: State>(
    v: ProofView<S>,
    actions: Seq<ProofAction<S>>,
    proofs: Seq<Option<PlayerProofView<S>>>,
    latest: ProofStateView<S>,
    checkpoint: ProofStateView<S>,
) -> Result<ProofView<S>, bool> {
    if actions.len() > u32::MAX || state_bytes(checkpoint).len() > u32::MAX {
        Err(false)
    } else {
        Ok(sealed(v.root, actions, proofs, latest))
    }
}

/// The proof with the given parts, and the digest of its binary representation.
pub open spec fn sealed<S: State>(
    root: RootProofView<S>,
    actions: Seq<ProofAction<S>>,
    proofs: Seq<Option<PlayerProofView<S>>>,
    latest: ProofStateView<S>,
) -> ProofView<S> {
    let w = ProofView { root, actions, proofs, hash: seq![], state: latest };
    ProofView { hash: keccak256_spec(proof_bytes(w)), ..w }
}

/// The proof after a diff by the root author: the author's signature must recover to the root
/// author; the author's checkpoint replaces all others, and the actions before it are dropped.
#[verifier::opaque]
pub open spec fn finish_owner<S: State>(
    v: ProofView<S>,
    d: DiffView<S>,
    latest: ProofStateView<S>,
    state: ProofStateView<S>,
    start: int,
) -> Result<ProofView<S>, bool> {
    let actions = (v.actions + d.actions).skip(start);
    match recover_spec(state_bytes(state) + actions_message(actions), d.proof_signature) {
        None => Err(true),
        Some(a) => if a != v.root.author@ {
            Err(true)
        } else {
            let slot = PlayerProofView {
                state,
                start: 0,
                end: actions.len() as int,
                signature: d.proof_signature,
            };
            seal(v, actions, seq![Some(slot), None, None], latest, state)
        },
    }
}

/// The proof after a diff by player `p`: the signature must recover to an address that acts as
/// `p`; the player's checkpoint is replaced, the owner's is dropped when both players have one
/// at or past its end, and the actions before the earliest remaining checkpoint are dropped.
#[verifier::opaque]
pub open spec fn finish_player<S: State>(
    v: ProofView<S>,
    d: DiffView<S>,
    p: Player,
    latest: ProofStateView<S>,
    state: ProofStateView<S>,
    start: int,
) -> Result<ProofView<S>, bool> {
    let all = v.actions + d.actions;
    let offset = player_offset(v.proofs, p, start);
    match recover_spec(state_bytes(state) + actions_message(all.skip(start)), d.proof_signature) {
        None => Err(true),
        Some(signer) => if player_of(latest, array20(signer), v.root.author) != Some(p) {
            Err(true)
        } else {
            let slot = PlayerProofView {
                state,
                start,
                end: all.len() as int,
                signature: d.proof_signature,
            };
            let pruned = player_slots(v.proofs, p, slot, offset);
            if exists|i: int| 0 <= i < 3 && starts_before(#[trigger] pruned[i], offset) {
                Err(false)
            } else {
                seal(
                    v,
                    all.skip(offset),
                    pruned.map_values(|q: Option<PlayerProofView<S>>| shift_slot(q, offset)),
                    latest,
                    state,
                )
            }
        },
    }
}

/// The proof after applying a diff, or whether the author is at fault when it is refused: the
/// diff must be built on this proof's digest (and the actions together must be countable), come
/// from the root author or a player, every action must be permitted and accepted, and the
/// signature of the resulting checkpoint must be the author's.
pub open spec fn apply_diff<S: State>(v: ProofView<S>, d: DiffView<S>) -> Result<ProofView<S>, bool> {
    if d.digest != v.hash || v.actions.len() + d.actions.len() > usize::MAX {
        Err(false)
    } else {
        match diff_player(v, d) {
            None => Err(false),
            Some(player) => match scan_diff(v, d.actions, player, d.actions.len()) {
                None => Err(true),
                Some((latest, state, start)) => match player {
                    None => finish_owner(v, d, latest, state, start),
                    Some(p) => finish_player(v, d, p, latest, state, start),
                },
            },
        }
    }
}


/// Once a scan fails, it fails for every longer prefix.
proof fn lemma_scan_none<S: State>(
    v: ProofView<S>,
    actions: Seq<ProofAction<S>>,
    player: Option<Player>,
    k: nat,
    n: nat,
)
    requires
        k <= n,
        scan_diff(v, actions, player, k) is None,
    ensures
        scan_diff(v, actions, player, n) is None,
    decreases n,
{
    if k < n {
        lemma_scan_none(v, actions, player, k, (n - 1) as nat);
    }
}

/// When a slot is filled, the latest checkpoint is a filled slot.
proof fn lemma_latest_index<S: State>(s: Seq<Option<PlayerProofView<S>>>)
    requires
        base_index(s) >= 0,
    ensures
        0 <= latest_index(s) < s.len(),
        s[latest_index(s)] is Some,
    decreases s.len(),
{
    let prev = s.drop_last();
    if base_index(prev) >= 0 {
        lemma_latest_index(prev);
    } else if latest_index(prev) >= 0 {
        lemma_latest_index_filled(prev);
    }
}

proof fn lemma_latest_index_filled<S: State>(s: Seq<Option<PlayerProofView<S>>>)
    requires
        latest_index(s) >= 0,
    ensures
        latest_index(s) < s.len(),
        s[latest_index(s)] is Some,
    decreases s.len(),
{
    if s.len() > 0 && latest_index(s.drop_last()) >= 0 {
        lemma_latest_index_filled(s.drop_last());
    }
}

/// The position of the checkpoint whose range ends last.
fn latest_position<S: State>(proofs: &Vec<Option<PlayerProof<S>>>) -> (r: usize)
    requires
        proofs@.len() == 3,
        latest_index(proofs_view(proofs@)) >= 0,
    ensures
        r == latest_index(proofs_view(proofs@)),
{
    let ghost pv = proofs_view(proofs@);
    let mut best: usize = 0;
    let mut found = false;
    let mut i: usize = 0;
    assert(pv.take(0) =~= Seq::<Option<PlayerProofView<S>>>::empty());
    while i < 3
        invariant
            i <= 3,
            proofs@.len() == 3,
            pv == proofs_view(proofs@),
            found ==> best == latest_index(pv.take(i as int)) && best < i && pv[best as int] is Some,
            !found ==> latest_index(pv.take(i as int)) < 0,
        decreases 3 - i,
    {
        proof {
            assert(pv.take(i + 1).drop_last() =~= pv.take(i as int));
            assert(pv.take(i + 1).last() == pv[i as int]);
            assert(pv[i as int] == match proofs@[i as int] {
                Some(q) => Some(q@),
                None => None,
            });
            if found {
                assert(pv.take(i as int)[best as int] == pv[best as int]);
                assert(pv.take(i + 1)[best as int] == pv[best as int]);
                assert(pv[best as int] == match proofs@[best as int] {
                    Some(q) => Some(q@),
                    None => None,
                });
            }
        }
        let ghost prev_best = best;
        let ghost prev_found = found;
        if let Some(q) = &proofs[i] {
            proof {
                assert(pv[i as int] == Some(q@));
                let t = pv.take(i + 1);
                assert(t.drop_last() =~= pv.take(i as int));
                assert(t.last() == Some(q@));
            }
            if !found {
                best = i;
                found = true;
            } else {
                let later = match &proofs[best] {
                    Some(b) => {
                        proof {
                            assert(pv[best as int] == Some(b@));
                            assert(pv.take(i + 1)[best as int]->0.end == b.end);
                        }
                        q.end >= b.end
                    },
                    None => true,
                };
                proof {
                    assert(pv.take(i + 1).last() == Some(q@));
                }
                if later {
                    best = i;
                }
            }
        } else {
            proof {
                let t = pv.take(i + 1);
                assert(t.drop_last() =~= pv.take(i as int));
                assert(t.last() is None);
            }
        }
        i = i + 1;
    }
    proof {
        assert(pv.take(3) =~= pv);
    }
    best
}

/// Whether a play's performer is the diff's author.
fn same_player(a: Option<Player>, b: Option<Player>) -> (r: bool)
    ensures
        r == (a == b),
{
    match (a, b) {
        (None, None) => true,
        (Some(x), Some(y)) => x == y,
        _ => false,
    }
}

/// The proof's actions followed by the diff's, from position `offset` on.
fn actions_after<S: State>(
    actions: &Vec<ProofAction<S>>,
    diff: &Vec<ProofAction<S>>,
    offset: usize,
) -> (r: Vec<ProofAction<S>>)
    requires
        offset <= actions@.len() + diff@.len(),
    ensures
        r@ == (actions@ + diff@).skip(offset as int),
{
    let mut out: Vec<ProofAction<S>> = Vec::new();
    if offset < actions.len() {
        let mut i: usize = offset;
        while i < actions.len()
            invariant
                offset <= i <= actions@.len(),
                out@ == actions@.subrange(offset as int, i as int),
            decreases actions@.len() - i,
        {
            out.push(actions[i].clone());
            assert(out@ =~= actions@.subrange(offset as int, i + 1));
            i = i + 1;
        }
        let mut j: usize = 0;
        while j < diff.len()
            invariant
                j <= diff@.len(),
                out@ == actions@.skip(offset as int) + diff@.take(j as int),
            decreases diff@.len() - j,
        {
            out.push(diff[j].clone());
            assert(out@ =~= actions@.skip(offset as int) + diff@.take(j + 1));
            j = j + 1;
        }
        assert(out@ =~= (actions@ + diff@).skip(offset as int));
    } else {
        let mut j: usize = offset - actions.len();
        while j < diff.len()
            invariant
                offset - actions@.len() <= j <= diff@.len(),
                offset >= actions@.len(),
                out@ == diff@.subrange(offset - actions@.len(), j as int),
            decreases diff@.len() - j,
        {
            out.push(diff[j].clone());
            assert(out@ =~= diff@.subrange(offset - actions@.len(), j + 1));
            j = j + 1;
        }
        assert(out@ =~= (actions@ + diff@).skip(offset as int));
    }
    out
}


impl<S: State> Proof<S> {
    /// Replays a diff's actions from the proof's latest state, keeping the last state with a
    /// binary representation and where it stands.
    fn scan(&self, diff: &Diff<S>, player: Option<Player>) -> (r: Result<
        (ProofState<S>, ProofState<S>, usize),
        Error,
    >)
        requires
            self@.wf(),
            diff@.wf(),
            self@.actions.len() + diff@.actions.len() <= usize::MAX,
        ensures
            match scan_diff(self@, diff@.actions, player, diff@.actions.len()) {
                Some((latest, state, start)) => r matches Ok((l, c, st)) && l@ == latest && c@
                    == state && st == start,
                None => r matches Err(e) && e is Hard,
            },
            r matches Ok((l, c, st)) ==> {
                &&& l@.wf()
                &&& c@.wf()
                &&& state_serializable(c@)
                &&& st <= self@.actions.len() + diff@.actions.len()
                &&& apply_all(c@, (self@.actions + diff@.actions).skip(st as int)) == Some(l@)
                &&& apply_all(self@.state, diff@.actions) == Some(l@)
            },
    {
        proof {
            lemma_base_index(self@.proofs);
            lemma_latest_index(self@.proofs);
            reveal(slot_wf);
        }
        let li = latest_position(&self.proofs);
        let (mut state, mut start) = match &self.proofs[li] {
            Some(q) => {
                proof {
                    assert(self@.proofs[li as int] == Some(q@));
                }
                (q.state.clone(), q.start)
            },
            None => {
                proof {
                    assert(self@.proofs[li as int] is None);
                }
                return Err(Error::Soft("no checkpoint".to_owned()));
            },
        };
        let mut latest = self.state.clone();
        let n0 = self.actions.len();
        let ghost a = self@.actions;
        let ghost d = diff@.actions;
        proof {
            assert(a + d.take(0) =~= a);
            assert(d.take(0) =~= Seq::<ProofAction<S>>::empty());
        }
        let mut i: usize = 0;
        while i < diff.actions.len()
            invariant
                i <= d.len(),
                a == self@.actions,
                d == diff@.actions,
                n0 == a.len(),
                a.len() + d.len() <= usize::MAX,
                diff@.wf(),
                scan_diff(self@, d, player, i as nat) == Some((latest@, state@, start as int)),
                latest@.wf(),
                state@.wf(),
                state_serializable(state@),
                start <= n0 + i,
                apply_all(state@, (a + d.take(i as int)).skip(start as int)) == Some(latest@),
                apply_all(self@.state, d.take(i as int)) == Some(latest@),
            decreases d.len() - i,
        {
            let action = &diff.actions[i];
            let permitted = match &action.action {
                PlayerAction::Play(_) => same_player(action.player, player),
                PlayerAction::Certify { .. } => true,
                PlayerAction::Approve { .. } => player.is_none(),
            };
            if !permitted {
                proof {
                    lemma_scan_none(self@, d, player, (i + 1) as nat, d.len());
                }
                return Err(Error::Hard("action is not permitted to the diff's author".to_owned()));
            }
            let ghost prev = latest@;
            match latest.apply(action) {
                Ok(()) => {},
                Err(e) => {
                    proof {
                        lemma_scan_none(self@, d, player, (i + 1) as nat, d.len());
                    }
                    return Err(Error::Hard(e));
                },
            }
            proof {
                lemma_apply_wf(prev, d[i as int]);
                let before = (a + d.take(i as int)).skip(start as int);
                assert((a + d.take(i + 1)).skip(start as int) =~= before.push(d[i as int]));
                lemma_apply_all_push(state@, before, d[i as int]);
                assert(d.take(i + 1) =~= d.take(i as int).push(d[i as int]));
                lemma_apply_all_push(self@.state, d.take(i as int), d[i as int]);
            }
            if latest.is_serializable() {
                state = latest.clone();
                start = n0 + i + 1;
                proof {
                    assert((a + d.take(i + 1)).skip(start as int) =~= Seq::<ProofAction<S>>::empty());
                }
            }
            i = i + 1;
        }
        proof {
            assert(d.take(i as int) =~= d);
        }
        Ok((latest, state, start))
    }
}


/// The actions of a proof followed by a diff's, from any position on, can be written.
proof fn lemma_writable_after<S: State>(a: Seq<ProofAction<S>>, d: Seq<ProofAction<S>>, k: int)
    requires
        actions_writable(a),
        actions_writable(d),
        0 <= k <= a.len() + d.len(),
    ensures
        actions_writable((a + d).skip(k)),
{
    let all = (a + d).skip(k);
    assert forall|i: int| 0 <= i < all.len() implies action_writable(#[trigger] all[i])
        && action_bytes(all[i]).len() <= u32::MAX by {
        if k + i < a.len() {
            assert(all[i] == a[k + i]);
        } else {
            assert(all[i] == d[k + i - a.len()]);
        }
    }
}



impl<S: State> Proof<S> {
    /// Finishes a diff by the root author: checks the author's signature of the resulting
    /// checkpoint and keeps only that checkpoint.
    #[verifier::spinoff_prover]
    #[verifier::rlimit(40)]
    fn close_owner(
        &self,
        diff: &Diff<S>,
        latest: ProofState<S>,
        state: ProofState<S>,
        start: usize,
    ) -> (r: Result<Self, Error>)
        requires
            self@.wf(),
            diff@.wf(),
            latest@.wf(),
            state@.wf(),
            state_serializable(state@),
            start <= self@.actions.len() + diff@.actions.len(),
            apply_all(state@, (self@.actions + diff@.actions).skip(start as int)) == Some(latest@),
        ensures
            match finish_owner(self@, diff@, latest@, state@, start as int) {
                Ok(v) => r matches Ok(p) && p@ == v,
                Err(hard) => r matches Err(e) && (e is Hard) == hard,
            },
    {
        proof {
            reveal(finish_owner);
            lemma_writable_after(self@.actions, diff@.actions, start as int);
        }
        let actions = actions_after(&self.actions, &diff.actions, start);
        let mut message = match state.serialize() {
            Some(message) => message,
            None => {
                assert(false);
                return Err(Error::Soft("state.serialize().is_none()".to_owned()));
            },
        };
        let state_len = message.len();
        extend_with_actions(&mut message, actions.as_slice());
        let signer = match recover(message.as_slice(), diff.proof_signature.as_slice()) {
            Ok(signer) => signer,
            Err(e) => return Err(Error::Hard(e)),
        };
        proof {
            lemma_array20(signer);
            lemma_array20(self.root.author);
        }
        if !address_eq(&signer, &self.root.author) {
            return Err(Error::Hard("recover(message, diff.proof_signature) != self.root.author".to_owned()));
        }
        if actions.len() > 0xffff_ffff || state_len > 0xffff_ffff {
            return Err(Error::Soft("length > u32::MAX".to_owned()));
        }
        let count = actions.len();
        let mut proofs: Vec<Option<PlayerProof<S>>> = Vec::new();
        proofs.push(Some(PlayerProof { state, start: 0, end: count, signature: diff.proof_signature }));
        proofs.push(None);
        proofs.push(None);
        let ghost pp = PlayerProofView {
            state: state@,
            start: 0,
            end: count as int,
            signature: diff@.proof_signature,
        };
        proof {
            let pv = proofs_view(proofs@);
            reveal(slot_wf);
            assert(pv =~= seq![Some(pp), None, None]);
            lemma_owner_only(pp);
            assert(actions@.skip(0) =~= actions@);
            assert(slot_wf(pp, actions@, latest@));
            assert forall|i: int| 0 <= i < 3 implies ((#[trigger] pv[i]) matches Some(q) ==> slot_wf(
                q,
                actions@,
                latest@,
            )) by {
                if i == 0 {
                    assert(pv[i] == Some(pp));
                }
            }
        }
        let root = self.root.clone();
        let mut proof = Proof { root, actions, proofs, hash: [0u8; 32], state: latest };
        let bytes = proof.serialize();
        proof.hash = keccak256(bytes.as_slice());
        Ok(proof)
    }
}


/// A filled slot that starts at the first action makes the first-checkpoint position defined.
proof fn lemma_base_index_exists<S: State>(s: Seq<Option<PlayerProofView<S>>>, j: int)
    requires
        0 <= j < s.len(),
        s[j] matches Some(q) && q.start == 0,
    ensures
        base_index(s) >= 0,
    decreases s.len(),
{
    if j < s.len() - 1 {
        lemma_base_index_exists(s.drop_last(), j);
    }
}

/// The checkpoint slots after a player's diff: the player's slot replaced by its new
/// checkpoint, and the owner's emptied when both players have one and it ends by the offset.
pub open spec fn player_slots<S: State>(
    proofs: Seq<Option<PlayerProofView<S>>>,
    p: Player,
    slot: PlayerProofView<S>,
    offset: int,
) -> Seq<Option<PlayerProofView<S>>> {
    let updated = proofs.update(1 + p, Some(slot));
    if proofs[2 - p] is Some && ends_by(updated[0], offset) {
        updated.update(0, None)
    } else {
        updated
    }
}

/// After a player's diff, the checkpoint slots moved to the offset are well-formed.
#[verifier::rlimit(80)]
proof fn lemma_player_slots<S: State>(
    v: ProofView<S>,
    d: DiffView<S>,
    p: Player,
    latest: ProofStateView<S>,
    state: ProofStateView<S>,
    start: int,
)
    requires
        v.wf(),
        d.wf(),
        p < 2,
        state.wf(),
        state_serializable(state),
        state_bytes(state).len() <= u32::MAX,
        0 <= start <= v.actions.len() + d.actions.len(),
        apply_all(state, (v.actions + d.actions).skip(start)) == Some(latest),
        apply_all(v.state, d.actions) == Some(latest),
        d.proof_signature.len() == 65,
        ({
            let slot = PlayerProofView {
                state,
                start,
                end: (v.actions.len() + d.actions.len()) as int,
                signature: d.proof_signature,
            };
            let offset = player_offset(v.proofs, p, start);
            forall|i: int|
                0 <= i < 3 ==> !starts_before(
                    #[trigger] player_slots(v.proofs, p, slot, offset)[i],
                    offset,
                )
        }),
    ensures
        ({
            let slot = PlayerProofView {
                state,
                start,
                end: (v.actions.len() + d.actions.len()) as int,
                signature: d.proof_signature,
            };
            let offset = player_offset(v.proofs, p, start);
            let shifted = player_slots(v.proofs, p, slot, offset).map_values(
                |q: Option<PlayerProofView<S>>| shift_slot(q, offset),
            );
            let actions = (v.actions + d.actions).skip(offset);
            &&& 0 <= offset <= start
            &&& shifted.len() == 3
            &&& base_index(shifted) >= 0
            &&& forall|i: int|
                0 <= i < 3 ==> ((#[trigger] shifted[i]) matches Some(q) ==> slot_wf(
                    q,
                    actions,
                    latest,
                ))
            &&& (shifted[0] is None ==> shifted[1] is Some && shifted[2] is Some)
        }),
{
    reveal(slot_wf);
    let all = v.actions + d.actions;
    let slot = PlayerProofView { state, start, end: all.len() as int, signature: d.proof_signature };
    let offset = player_offset(v.proofs, p, start);
    let pruned = player_slots(v.proofs, p, slot, offset);
    let shifted = pruned.map_values(|q: Option<PlayerProofView<S>>| shift_slot(q, offset));
    let actions = all.skip(offset);
    let consensus = v.proofs[2 - p] is Some;
    if offset == start {
        assert(pruned[1 + p] == Some(slot));
        lemma_base_index_exists(shifted, 1 + p);
    } else if consensus {
        assert(pruned[2 - p] == v.proofs[2 - p]);
        lemma_base_index_exists(shifted, 2 - p);
    } else {
        assert(pruned[0] == v.proofs[0]);
        lemma_base_index_exists(shifted, 0);
    }
    assert forall|i: int| 0 <= i < 3 implies ((#[trigger] shifted[i]) matches Some(q) ==> slot_wf(
        q,
        actions,
        latest,
    )) by {
        assert(!starts_before(pruned[i], offset));
        if let Some(q0) = pruned[i] {
            if i == 1 + p {
                assert(q0 == slot);
                assert(actions.skip(q0.start - offset) =~= all.skip(start));
            } else {
                assert(v.proofs[i] == Some(q0));
                assert(v.proofs[i] matches Some(x) ==> slot_wf(x, v.actions, v.state));
                assert(actions.skip(q0.start - offset) =~= v.actions.skip(q0.start) + d.actions);
                lemma_apply_all_append(q0.state, v.actions.skip(q0.start), d.actions);
            }
        }
    }
}

/// Moves a checkpoint `offset` actions earlier.
fn shift<S: State>(slot: Option<PlayerProof<S>>, offset: usize) -> (r: Option<PlayerProof<S>>)
    requires
        slot matches Some(q) ==> offset <= q.start <= q.end,
    ensures
        match r {
            Some(q) => Some(q@),
            None => None,
        } == shift_slot(
            match slot {
                Some(q) => Some(q@),
                None => None,
            },
            offset as int,
        ),
{
    match slot {
        Some(q) => Some(
            PlayerProof {
                state: q.state,
                start: q.start - offset,
                end: q.end - offset,
                signature: q.signature,
            },
        ),
        None => None,
    }
}


/// A copy of a checkpoint slot.
fn clone_slot<S: State>(slot: &Option<PlayerProof<S>>) -> (r: Option<PlayerProof<S>>)
    ensures
        proofs_view(seq![r]) == proofs_view(seq![*slot]),
{
    let r = match slot {
        Some(q) => Some(q.clone()),
        None => None,
    };
    assert(proofs_view(seq![r]) =~= proofs_view(seq![*slot]));
    r
}

impl<S: State> Proof<S> {
    /// Where the actions kept after a player's diff begin.
    fn offset_for(&self, p: Player, start: usize) -> (r: usize)
        requires
            self@.proofs.len() == 3,
            self.proofs@.len() == 3,
            p < 2,
        ensures
            r == player_offset(self@.proofs, p, start as int),
            r <= start,
    {
        let ghost v = self@;
        let other: usize = if p == 0 { 2 } else { 1 };
        proof {
            assert(v.proofs[other as int] == match self.proofs@[other as int] {
                Some(q) => Some(q@),
                None => None,
            });
            assert(v.proofs[0] == match self.proofs@[0] {
                Some(q) => Some(q@),
                None => None,
            });
        }
        match &self.proofs[other] {
            Some(q) => if start <= q.start { start } else { q.start },
            None => match &self.proofs[0] {
                Some(q) => if start <= q.start { start } else { q.start },
                None => start,
            },
        }
    }

    /// Checks that the signature of a player's new checkpoint recovers to an address that acts
    /// as the player in the latest state.
    fn check_player_signature(
        &self,
        diff: &Diff<S>,
        p: Player,
        latest: &ProofState<S>,
        state: &ProofState<S>,
        signed: &[ProofAction<S>],
    ) -> (r: Result<(), Error>)
        requires
            state_serializable(state@),
            forall|i: int| 0 <= i < signed@.len() ==> action_writable(#[trigger] signed@[i]),
        ensures
            match recover_spec(state_bytes(state@) + actions_message(signed@), diff@.proof_signature) {
                None => r matches Err(e) && e is Hard,
                Some(signer) => if player_of(latest@, array20(signer), self@.root.author) != Some(p) {
                    r matches Err(e) && e is Hard
                } else {
                    r is Ok
                },
            },
    {
        let mut message = match state.serialize() {
            Some(message) => message,
            None => {
                assert(false);
                return Err(Error::Soft("state.serialize().is_none()".to_owned()));
            },
        };
        extend_with_actions(&mut message, signed);
        let signer = match recover(message.as_slice(), diff.proof_signature.as_slice()) {
            Ok(signer) => signer,
            Err(e) => return Err(Error::Hard(e)),
        };
        proof {
            lemma_array20(signer);
        }
        if !same_player(latest.player(&signer, &self.root.author), Some(p)) {
            return Err(Error::Hard("state.player(recover(message, diff.proof_signature)) != Some(player)".to_owned()));
        }
        Ok(())
    }

    /// The checkpoint slots after a player's diff, moved to the offset; refused when a kept
    /// checkpoint starts before the offset.
    fn shifted_slots(
        &self,
        p: Player,
        fresh: PlayerProof<S>,
        offset: usize,
    ) -> (r: Result<Vec<Option<PlayerProof<S>>>, Error>)
        requires
            self@.proofs.len() == 3,
            self.proofs@.len() == 3,
            p < 2,
            fresh.start <= fresh.end,
            forall|i: int| 0 <= i < 3 ==> ((#[trigger] self@.proofs[i]) matches Some(q) ==> q.start <= q.end),
        ensures
            ({
                let pruned = player_slots(self@.proofs, p, fresh@, offset as int);
                if exists|i: int| 0 <= i < 3 && starts_before(#[trigger] pruned[i], offset as int) {
                    r matches Err(e) && e is Soft
                } else {
                    r matches Ok(slots) && proofs_view(slots@) == pruned.map_values(
                        |q: Option<PlayerProofView<S>>| shift_slot(q, offset as int),
                    )
                }
            }),
    {
        let ghost v = self@;
        let ghost pruned = player_slots(v.proofs, p, fresh@, offset as int);
        let other: usize = if p == 0 { 2 } else { 1 };
        let consensus = self.proofs[other].is_some();
        let owner = if consensus {
            let ends = match &self.proofs[0] {
                Some(q) => q.end <= offset,
                None => false,
            };
            if ends { None } else { clone_slot(&self.proofs[0]) }
        } else {
            clone_slot(&self.proofs[0])
        };
        let (first, second) = if p == 0 {
            (Some(fresh), clone_slot(&self.proofs[2]))
        } else {
            (clone_slot(&self.proofs[1]), Some(fresh))
        };
        proof {
            assert(v.proofs[0] == proofs_view(seq![self.proofs@[0]])[0]);
            assert(v.proofs[1] == proofs_view(seq![self.proofs@[1]])[0]);
            assert(v.proofs[2] == proofs_view(seq![self.proofs@[2]])[0]);
            assert(v.proofs[other as int] == match self.proofs@[other as int] {
                Some(q) => Some(q@),
                None => None,
            });
            assert(proofs_view(seq![owner])[0] == pruned[0]);
            assert(proofs_view(seq![first])[0] == pruned[1]);
            assert(proofs_view(seq![second])[0] == pruned[2]);
        }
        let b0 = match &owner {
            Some(q) => q.start < offset,
            None => false,
        };
        let b1 = match &first {
            Some(q) => q.start < offset,
            None => false,
        };
        let b2 = match &second {
            Some(q) => q.start < offset,
            None => false,
        };
        proof {
            assert(b0 == starts_before(pruned[0], offset as int));
            assert(b1 == starts_before(pruned[1], offset as int));
            assert(b2 == starts_before(pruned[2], offset as int));
        }
        if b0 || b1 || b2 {
            return Err(Error::Soft("proof.range.start < offset".to_owned()));
        }
        proof {
            assert(forall|i: int| 0 <= i < 3 ==> !starts_before(#[trigger] pruned[i], offset as int));
            assert(owner matches Some(q) ==> q.start <= q.end) by {
                if let Some(q) = owner {
                    assert(pruned[0] == Some(q@));
                }
            }
            assert(first matches Some(q) ==> q.start <= q.end) by {
                if let Some(q) = first {
                    assert(pruned[1] == Some(q@));
                }
            }
            assert(second matches Some(q) ==> q.start <= q.end) by {
                if let Some(q) = second {
                    assert(pruned[2] == Some(q@));
                }
            }
        }
        let mut slots: Vec<Option<PlayerProof<S>>> = Vec::new();
        slots.push(shift(owner, offset));
        slots.push(shift(first, offset));
        slots.push(shift(second, offset));
        assert(proofs_view(slots@) =~= pruned.map_values(
            |q: Option<PlayerProofView<S>>| shift_slot(q, offset as int),
        ));
        Ok(slots)
    }

    /// Finishes a diff by player `p`: checks that the signature of the resulting checkpoint is
    /// the player's, replaces the player's checkpoint and drops the actions no checkpoint needs.
    #[verifier::spinoff_prover]
    #[verifier::rlimit(60)]
    fn close_player(
        &self,
        diff: &Diff<S>,
        p: Player,
        latest: ProofState<S>,
        state: ProofState<S>,
        start: usize,
    ) -> (r: Result<Self, Error>)
        requires
            self@.wf(),
            diff@.wf(),
            p < 2,
            latest@.wf(),
            state@.wf(),
            state_serializable(state@),
            start <= self@.actions.len() + diff@.actions.len(),
            self@.actions.len() + diff@.actions.len() <= usize::MAX,
            apply_all(state@, (self@.actions + diff@.actions).skip(start as int)) == Some(latest@),
            apply_all(self@.state, diff@.actions) == Some(latest@),
        ensures
            match finish_player(self@, diff@, p, latest@, state@, start as int) {
                Ok(v) => r matches Ok(q) && q@ == v,
                Err(hard) => r matches Err(e) && (e is Hard) == hard,
            },
    {
        proof {
            reveal(finish_player);
        }
        let ghost v = self@;
        let ghost all = self@.actions + diff@.actions;
        let offset = self.offset_for(p, start);
        proof {
            lemma_writable_after(v.actions, diff@.actions, offset as int);
        }
        let actions = actions_after(&self.actions, &diff.actions, offset);
        let (_, signed) = actions.as_slice().split_at(start - offset);
        proof {
            assert(signed@ =~= all.skip(start as int));
            assert forall|i: int| 0 <= i < signed@.len() implies action_writable(
                #[trigger] signed@[i],
            ) by {
                assert(signed@[i] == actions@[i + start - offset]);
            }
        }
        self.check_player_signature(diff, p, &latest, &state, signed)?;
        let state_len = match state.serialize() {
            Some(bytes) => bytes.len(),
            None => {
                assert(false);
                0
            },
        };
        let total = self.actions.len() + diff.actions.len();
        proof {
            reveal(slot_wf);
            assert forall|i: int| 0 <= i < 3 implies ((#[trigger] v.proofs[i]) matches Some(q) ==> q.start
                <= q.end) by {
                if let Some(q) = v.proofs[i] {
                    assert(slot_wf(q, v.actions, v.state));
                }
            }
        }
        let fresh = PlayerProof { state, start, end: total, signature: diff.proof_signature };
        let slots = self.shifted_slots(p, fresh, offset)?;
        if actions.len() > 0xffff_ffff || state_len > 0xffff_ffff {
            return Err(Error::Soft("length > u32::MAX".to_owned()));
        }
        proof {
            lemma_player_slots(v, diff@, p, latest@, fresh@.state, start as int);
        }
        let root = self.root.clone();
        let mut proof = Proof { root, actions, proofs: slots, hash: [0u8; 32], state: latest };
        let bytes = proof.serialize();
        proof.hash = keccak256(bytes.as_slice());
        Ok(proof)
    }

    /// The proof after a diff, or why the diff is refused.
    #[verifier::rlimit(30)]
    fn applied(&self, diff: &Diff<S>) -> (r: Result<Self, Error>)
        ensures
            match apply_diff(self@, diff@) {
                Ok(v) => r matches Ok(p) && p@ == v,
                Err(hard) => r matches Err(e) && (e is Hard) == hard,
            },
    {
        proof {
            use_type_invariant(self);
            use_type_invariant(diff);
        }
        if !slices_equal(diff.digest.as_slice(), self.hash.as_slice()) {
            return Err(Error::Soft("diff.proof != self.hash".to_owned()));
        }
        if diff.actions.len() > usize::MAX - self.actions.len() {
            return Err(Error::Soft("too many actions".to_owned()));
        }
        proof {
            lemma_array20(diff.author);
            lemma_array20(self.root.author);
        }
        let player: Option<Player> = if address_eq(&diff.author, &self.root.author) {
            None
        } else {
            match self.state.player(&diff.author, &self.root.author) {
                Some(p) => Some(p),
                None => return Err(Error::Soft("player.is_none()".to_owned())),
            }
        };
        let (latest, state, start) = self.scan(diff, player)?;
        match player {
            None => self.close_owner(diff, latest, state, start),
            Some(p) => {
                proof {
                    reveal(player_of);
                }
                assert(p < 2);
                self.close_player(diff, p, latest, state, start)
            },
        }
    }

    /// Verifies and applies a cryptographically constructed diff to the proof.
    ///
    /// `diff` must have been constructed using [Proof::diff] on a proof with the same digest.
    /// A refusal is [Error::Hard] when the diff's author is provably at fault; the proof is then
    /// unchanged.
    pub fn apply(&mut self, diff: &Diff<S>) -> (r: Result<(), Error>)
        ensures
            match apply_diff(old(self)@, diff@) {
                Ok(v) => r is Ok && final(self)@ == v,
                Err(hard) => r matches Err(e) && (e is Hard) == hard && final(self)@ == old(self)@,
            },
            checkpoints_agree(old(self)@) && performed_by_author(old(self)@, diff@)
                ==> checkpoints_agree(final(self)@),
    {
        let ghost v = self@;
        proof {
            use_type_invariant(&*self);
        }
        let next = self.applied(diff)?;
        proof {
            use_type_invariant(&next);
            if checkpoints_agree(v) && performed_by_author(v, diff@) {
                lemma_apply_agrees(v, diff@);
            }
        }
        *self = next;
        Ok(())
    }
}


// ---------------------------------------------------------------------------
// Generating diffs
// ---------------------------------------------------------------------------

/// After the first `n` of `actions` from the proof's latest state: the latest state, the last
/// checkpoint state with a binary representation, and its position in the proof's actions
/// followed by `actions`; `None` when an action is refused.
pub open spec fn scan_actions<S: State>(v: ProofView<S>, actions: Seq<ProofAction<S>>, n: nat) -> Option<
    (ProofStateView<S>, ProofStateView<S>, int),
>
    decreases n,
{
    if n == 0 {
        let lp = v.proofs[latest_index(v.proofs)]->0;
        Some((v.state, lp.state, lp.start))
    } else {
        match scan_actions(v, actions, (n - 1) as nat) {
            None => None,
            Some((latest, state, start)) => match apply_spec(latest, actions[n - 1]) {
                None => None,
                Some(next) => if state_serializable(next) {
                    Some((next, next, (v.actions.len() + n) as int))
                } else {
                    Some((next, state, start))
                },
            },
        }
    }
}

proof fn lemma_scan_actions_none<S: State>(v: ProofView<S>, actions: Seq<ProofAction<S>>, k: nat, n: nat)
    requires
        k <= n,
        scan_actions(v, actions, k) is None,
    ensures
        scan_actions(v, actions, n) is None,
    decreases n,
{
    if k < n {
        lemma_scan_actions_none(v, actions, k, (n - 1) as nat);
    }
}

/// What the author of a diff of `actions` on the proof signs for the proof's new checkpoint:
/// the binary representation of the last state with one that the scan reaches, then the actions
/// after it.
pub open spec fn diff_proof_message<S: State>(v: ProofView<S>, actions: Seq<ProofAction<S>>) -> Seq<u8> {
    match scan_actions(v, actions, actions.len()) {
        Some((latest, state, start)) => state_bytes(state) + actions_message(
            (v.actions + actions).skip(start),
        ),
        None => seq![],
    }
}

/// Whether `author` may author a diff of `actions` on the proof: the root author, or an address
/// that acts, after the actions, as the player who performs them.
pub open spec fn acts_for_diff<S: State>(v: ProofView<S>, actions: Seq<ProofAction<S>>, author: Address) -> bool {
    match scan_actions(v, actions, actions.len()) {
        Some((latest, state, start)) => author == v.root.author || (player_of(latest, author, v.root.author)
            matches Some(p) && (actions.len() > 0 ==> actions[0].player == Some(p))),
        None => false,
    }
}

/// Whether all actions are performed by the same party as the first.
pub open spec fn same_performer<S: State>(actions: Seq<ProofAction<S>>) -> bool {
    forall|i: int| 0 <= i < actions.len() ==> (#[trigger] actions[i]).player == actions[0].player
}

impl<S: State> Proof<S> {
    /// Generates a diff that can be applied to a proof with the same digest.
    ///
    /// The actions must all be performed by the same party, and must apply in turn to the
    /// latest state. `sign` signs the resulting checkpoint's message and then the diff; the
    /// address that signed must be the root author or act as the actions' performer.
    ///
    /// See [Proof::apply].
    #[verifier::spinoff_prover]
    pub fn diff<F: FnMut(&[u8]) -> Result<Signature, String>>(
        &self,
        actions: Vec<ProofAction<S>>,
        sign: &mut F,
    ) -> (r: Result<Diff<S>, String>)
        requires
            forall|f: F, m: &[u8]| call_requires(f, (m,)),
        ensures
            !same_performer(actions@) ==> r is Err,
            scan_actions(self@, actions@, actions@.len()) is None ==> r is Err,
            r is Err ==> !same_performer(actions@) || scan_actions(
                self@,
                actions@,
                actions@.len(),
            ) is None || self@.actions.len() + actions@.len() > usize::MAX || actions@.len()
                > u32::MAX || !actions_writable(actions@) || (exists|out: Result<Signature, String>|
                #[trigger] signs_as(*old(sign), diff_proof_message(self@, actions@), out) && (
                out matches Ok(s) ==> !(recover_spec(diff_proof_message(self@, actions@), s@) matches Some(
                a,
            ) && acts_for_diff(self@, actions@, array20(a))))) || (exists|s: Signature, g: F, e: String|
                signs_as(*old(sign), diff_proof_message(self@, actions@), Ok(s)) && #[trigger] signs_as(
                    g,
                    diff_message_of(self@.hash, actions@, s@),
                    Err::<Signature, String>(e),
                )),
            r matches Ok(d) ==> {
                &&& same_performer(actions@)
                &&& scan_actions(self@, actions@, actions@.len()) matches Some((latest, state, start))
                &&& d@.digest == self@.hash
                &&& d@.actions == actions@
                &&& self@.actions.len() + actions@.len() <= usize::MAX
                &&& recover_spec(
                    state_bytes(state) + actions_message((self@.actions + actions@).skip(start)),
                    d@.proof_signature,
                ) == Some(d@.author@)
                &&& (d@.author == self@.root.author || (player_of(latest, d@.author, self@.root.author)
                    matches Some(p) && (actions@.len() > 0 ==> actions@[0].player == Some(p))))
                &&& signs_as(
                    *old(sign),
                    diff_proof_message(self@, actions@),
                    Ok(array65(d@.proof_signature)),
                )
                &&& exists|g: F| #[trigger] signs_as(g, diff_message(d@), Ok(array65(d@.signature)))
            },
    {
        proof {
            use_type_invariant(self);
            lemma_base_index(self@.proofs);
            lemma_latest_index(self@.proofs);
            reveal(slot_wf);
        }
        let li = latest_position(&self.proofs);
        let (mut state, mut start) = match &self.proofs[li] {
            Some(q) => {
                proof {
                    assert(self@.proofs[li as int] == Some(q@));
                }
                (q.state.clone(), q.start)
            },
            None => {
                proof {
                    assert(self@.proofs[li as int] is None);
                }
                return Err("no checkpoint".to_owned());
            },
        };
        let mut latest = self.state.clone();
        let n0 = self.actions.len();
        if actions.len() > usize::MAX - n0 {
            return Err("too many actions".to_owned());
        }
        let ghost a = self@.actions;
        let ghost d = actions@;
        proof {
            assert(a + d.take(0) =~= a);
        }
        let mut i: usize = 0;
        while i < actions.len()
            invariant
                i <= d.len(),
                a == self@.actions,
                d == actions@,
                n0 == a.len(),
                a.len() + d.len() <= usize::MAX,
                scan_actions(self@, d, i as nat) == Some((latest@, state@, start as int)),
                forall|j: int| 0 <= j < i ==> (#[trigger] d[j]).player == d[0].player,
                latest@.wf(),
                state@.wf(),
                state_serializable(state@),
                start <= n0 + i,
                apply_all(state@, (a + d.take(i as int)).skip(start as int)) == Some(latest@),
            decreases d.len() - i,
        {
            if !same_player(actions[i].player, actions[0].player) {
                return Err("action.player != actions.first().unwrap().player".to_owned());
            }
            let ghost prev = latest@;
            match latest.apply(&actions[i]) {
                Ok(()) => {},
                Err(e) => {
                    proof {
                        lemma_scan_actions_none(self@, d, (i + 1) as nat, d.len());
                    }
                    return Err(e);
                },
            }
            proof {
                lemma_apply_wf(prev, d[i as int]);
                let before = (a + d.take(i as int)).skip(start as int);
                assert((a + d.take(i + 1)).skip(start as int) =~= before.push(d[i as int]));
                lemma_apply_all_push(state@, before, d[i as int]);
            }
            if latest.is_serializable() {
                state = latest.clone();
                start = n0 + i + 1;
                proof {
                    assert((a + d.take(i + 1)).skip(start as int) =~= Seq::<ProofAction<S>>::empty());
                }
            }
            i = i + 1;
        }
        proof {
            assert(d.take(i as int) =~= d);
        }
        if !all_writable(actions.as_slice()) {
            return Err("action.serialize().len() > u32::MAX".to_owned());
        }
        if actions.len() > 0xffff_ffff {
            return Err("actions.len() > u32::MAX".to_owned());
        }
        proof {
            lemma_writable_after(a, d, start as int);
        }
        let signed = actions_after(&self.actions, &actions, start);
        let mut message = match state.serialize() {
            Some(message) => message,
            None => {
                assert(false);
                return Err("state.serialize().is_none()".to_owned());
            },
        };
        extend_with_actions(&mut message, signed.as_slice());
        let ghost pm = message@;
        proof {
            assert(pm == diff_proof_message(self@, actions@));
        }
        let out = sign(message.as_slice());
        let ghost mid = *sign;
        proof {
            assert(signs_as(*old(sign), pm, out));
        }
        let signature = match out {
            Ok(signature) => signature,
            Err(e) => {
                return Err(e);
            },
        };
        let author = recover(message.as_slice(), signature.as_slice())?;
        proof {
            lemma_array20(author);
            lemma_array20(self.root.author);
        }
        if !address_eq(&author, &self.root.author) {
            let player = latest.player(&author, &self.root.author);
            if player.is_none() {
                return Err("player.is_none()".to_owned());
            }
            if actions.len() > 0 && !same_player(player, actions[0].player) {
                return Err("player != action.player".to_owned());
            }
        }
        let ghost hash = self@.hash;
        let ghost acts = actions@;
        let r = Diff::new(self.hash, actions, signature, sign, &author);
        proof {
            lemma_array65(signature);
            assert(array65(signature@) == signature);
            if r is Err {
                let e = choose|e: String|
                    #[trigger] signs_as(
                        mid,
                        diff_message_of(hash, acts, signature@),
                        Err::<Signature, String>(e),
                    );
                assert(signs_as(mid, diff_message_of(hash, acts, signature@), Err::<Signature, String>(e)));
            } else {
                let d = r->Ok_0;
                assert(diff_message(d@) == diff_message_of(hash, acts, signature@));
                assert(signs_as(mid, diff_message(d@), Ok(array65(d@.signature))));
            }
        }
        r
    }
}


// ---------------------------------------------------------------------------
// Reading proofs
// ---------------------------------------------------------------------------

/// A checkpoint slot as read: the range of actions it covers and its signature.
pub type SlotRange = Option<(int, int, Seq<u8>)>;

/// The checkpoint slot at the front of `data` for a proof of `count` actions, and what follows:
/// `0` for an empty slot; `1`, the range's start and end as four little-endian bytes each, and
/// 65 bytes of signature for a filled one, whose range must lie within the actions.
pub open spec fn parse_slot(data: Seq<u8>, count: int) -> Option<(SlotRange, Seq<u8>)> {
    if data.len() < 1 {
        None
    } else if data[0] == 0 {
        Some((None, data.skip(1)))
    } else if data[0] != 1 || data.len() < 9 {
        None
    } else {
        let start = le_u32_value(data.skip(1));
        let end = le_u32_value(data.skip(5));
        let rest = data.skip(9);
        if end > count || start > end || rest.len() < 65 {
            None
        } else {
            Some((Some((start, end, rest.take(65))), rest.skip(65)))
        }
    }
}

/// The three checkpoint slots at the front of `data`, if they are the whole of it, one of them
/// starts at the first action, and the owner's is empty only when both players' are filled.
pub open spec fn parse_slots(data: Seq<u8>, count: int) -> Option<Seq<SlotRange>> {
    match parse_slot(data, count) {
        None => None,
        Some((a, r1)) => match parse_slot(r1, count) {
            None => None,
            Some((b, r2)) => match parse_slot(r2, count) {
                None => None,
                Some((c, r3)) => if r3.len() != 0 || !(starts_at(a, 0) || starts_at(b, 0) || starts_at(
                    c,
                    0,
                )) || (a is None && (b is None || c is None)) {
                    None
                } else {
                    Some(seq![a, b, c])
                },
            },
        },
    }
}

/// Whether a slot's range starts at position `i`.
pub open spec fn starts_at(r: SlotRange, i: int) -> bool {
    match r {
        Some((start, _, _)) => start == i,
        None => false,
    }
}

/// Whether position `i` lies strictly after a slot's start and no later than its end.
pub open spec fn inside(r: SlotRange, i: int) -> bool {
    match r {
        Some((start, end, _)) => start < i <= end,
        None => false,
    }
}

/// Whether a slot's range goes past position `i`.
pub open spec fn covers(r: SlotRange, i: int) -> bool {
    match r {
        Some((_, end, _)) => end > i,
        None => false,
    }
}

/// The state at position `i` agrees with the slots: it has a binary representation when a slot
/// starts there, and none when it lies inside a slot's range.
pub open spec fn step_ok<S: State>(s: ProofStateView<S>, i: int, ranges: Seq<SlotRange>) -> bool {
    &&& (starts_at(ranges[0], i) || starts_at(ranges[1], i) || starts_at(ranges[2], i))
        ==> state_serializable(s)
    &&& (inside(ranges[0], i) || inside(ranges[1], i) || inside(ranges[2], i))
        ==> !state_serializable(s)
}

/// Whether the action at position `i` is covered by a checkpoint of its performer: the owner's
/// covers every action, a player's covers only that player's.
pub open spec fn permitted_at<S: State>(action: ProofAction<S>, i: int, ranges: Seq<SlotRange>) -> bool {
    covers(ranges[0], i) || (action.player matches Some(p) && p < 2 && covers(ranges[1 + p], i))
}

/// The state before action `i` when replaying a proof's actions from `state`, checking at each
/// position that the state agrees with the slots and the action is covered; `None` when a check
/// fails or an action is refused.
pub open spec fn replay_proof<S: State>(
    state: ProofStateView<S>,
    actions: Seq<ProofAction<S>>,
    ranges: Seq<SlotRange>,
    i: nat,
) -> Option<ProofStateView<S>>
    decreases i,
{
    if i == 0 {
        Some(state)
    } else {
        match replay_proof(state, actions, ranges, (i - 1) as nat) {
            None => None,
            Some(s) => if !step_ok(s, i - 1, ranges) || !permitted_at(actions[i - 1], i - 1, ranges) {
                None
            } else {
                apply_spec(s, actions[i - 1])
            },
        }
    }
}

/// The checkpoint a slot names: the replayed state at its start, its range and its signature.
pub open spec fn slot_proof<S: State>(
    state: ProofStateView<S>,
    actions: Seq<ProofAction<S>>,
    ranges: Seq<SlotRange>,
    r: SlotRange,
) -> Option<PlayerProofView<S>> {
    match r {
        Some((start, end, signature)) => Some(
            PlayerProofView {
                state: replay_proof(state, actions, ranges, start as nat)->0,
                start,
                end,
                signature,
            },
        ),
        None => None,
    }
}

/// Whether a checkpoint's signature is right: its state and actions must be signed by the root
/// author for the owner's slot, and by an address acting as the player for a player's.
pub open spec fn slot_signed<S: State>(
    slot: Option<PlayerProofView<S>>,
    j: int,
    actions: Seq<ProofAction<S>>,
    latest: ProofStateView<S>,
    owner: Address,
) -> bool {
    match slot {
        None => true,
        Some(q) => match recover_spec(
            state_bytes(q.state) + actions_message(actions.subrange(q.start, q.end)),
            q.signature,
        ) {
            None => false,
            Some(author) => if j == 0 {
                author == owner@
            } else {
                player_of(latest, array20(author), owner) == Some((j - 1) as u8)
            },
        },
    }
}

/// The proof read from the parts of its binary representation, for the given root proof.
#[verifier::opaque]
pub open spec fn proof_from_parts<S: State>(
    root: RootProofView<S>,
    state: ProofStateView<S>,
    actions: Seq<ProofAction<S>>,
    ranges: Seq<SlotRange>,
    hash: Seq<u8>,
) -> Option<ProofView<S>> {
    let n = actions.len();
    match replay_proof(state, actions, ranges, n) {
        None => None,
        Some(latest) => if !step_ok(latest, n as int, ranges) {
            None
        } else {
            let proofs = seq![
                slot_proof(state, actions, ranges, ranges[0]),
                slot_proof(state, actions, ranges, ranges[1]),
                slot_proof(state, actions, ranges, ranges[2]),
            ];
            if !(slot_signed(proofs[0], 0, actions, latest, root.author) && slot_signed(
                proofs[1],
                1,
                actions,
                latest,
                root.author,
            ) && slot_signed(proofs[2], 2, actions, latest, root.author)) {
                None
            } else if !actions_writable(actions) || !(forall|j: int|
                0 <= j < 3 ==> (#[trigger] proofs[j] matches Some(q) ==> state_bytes(q.state).len()
                    <= u32::MAX)) {
                None
            } else {
                Some(ProofView { root, actions, proofs, hash, state: latest })
            }
        },
    }
}

/// The proof read from a binary representation, for the given root proof, if it is one: the
/// state that starts it must have the root's identifier and players, and the checkpoints must
/// agree with the actions.
#[verifier::opaque]
pub open spec fn parse_proof<S: State>(root: RootProofView<S>, data: Seq<u8>) -> Option<ProofView<S>> {
    if data.len() < 84 {
        None
    } else {
        let size = le_u32_value(data);
        let r1 = data.skip(4);
        if r1.len() < size {
            None
        } else {
            match parse_state::<S>(r1.take(size)) {
                None => None,
                Some(state) => if state.id.spec_serialize() != root.state.id.spec_serialize()
                    || state.players != root.state.players {
                    None
                } else {
                    let r2 = r1.skip(size);
                    if r2.len() < 4 {
                        None
                    } else {
                        match parse_framed(r2.skip(4), le_u32_value(r2) as nat) {
                            None => None,
                            Some((items, rest)) => match parse_actions::<S>(items) {
                                None => None,
                                Some(actions) => match parse_slots(rest, actions.len() as int) {
                                    None => None,
                                    Some(ranges) => proof_from_parts(
                                        root,
                                        state,
                                        actions,
                                        ranges,
                                        keccak256_spec(data),
                                    ),
                                },
                            },
                        }
                    }
                },
            }
        }
    }
}


/// The model of a checkpoint slot as read.
pub open spec fn slot_range(x: Option<(usize, usize, Signature)>) -> SlotRange {
    match x {
        Some((start, end, signature)) => Some((start as int, end as int, signature@)),
        None => None,
    }
}

/// Reads a checkpoint slot for a proof of `count` actions.
fn read_slot(data: &mut &[u8], count: usize) -> (r: Result<Option<(usize, usize, Signature)>, String>)
    ensures
        match parse_slot(old(data)@, count as int) {
            Some((slot, rest)) => r matches Ok(x) && slot_range(x) == slot && final(data)@ == rest,
            None => r is Err,
        },
{
    let ghost start_data = data@;
    let present = read_u8_bool(data)?;
    if !present {
        return Ok(None);
    }
    let start = read_u32_usize(data)?;
    let end = read_u32_usize(data)?;
    proof {
        assert(start_data.skip(1).skip(4) =~= start_data.skip(5));
        assert(data@ =~= start_data.skip(9));
    }
    if end > count {
        return Err("range.end > actions.len()".to_owned());
    }
    if start > end {
        return Err("range.start > range.end".to_owned());
    }
    if data.len() < 65 {
        return Err("data.len() < size_of::<Signature>()".to_owned());
    }
    let (signature, rest) = data.split_at(65);
    let signature = copy65(signature);
    *data = rest;
    Ok(Some((start, end, signature)))
}

/// Reads `length` actions, each preceded by its length.
fn read_actions<S: State>(data: &mut &[u8], length: usize) -> (r: Result<Vec<ProofAction<S>>, String>)
    ensures
        r matches Ok(v) ==> v@.len() == length,
        match parse_framed(old(data)@, length as nat) {
            None => r is Err,
            Some((items, rest)) => match parse_actions::<S>(items) {
                None => r is Err,
                Some(actions) => r matches Ok(v) && v@ == actions && final(data)@ == rest,
            },
        },
{
    let ghost body = data@;
    let mut actions: Vec<ProofAction<S>> = Vec::new();
    let ghost mut done: Seq<Seq<u8>> = seq![];
    let mut k: usize = 0;
    while k < length
        invariant
            k <= length,
            body == old(data)@,
            parse_framed(body, length as nat) == prepend(
                done,
                parse_framed(data@, (length - k) as nat),
            ),
            done.len() == k,
            actions@.len() == k,
            parse_actions::<S>(done) == Some(actions@),
        decreases length - k,
    {
        let ghost before = data@;
        let item = match read_framed(data) {
            Ok(item) => item,
            Err(e) => {
                proof {
                    lemma_parse_framed_split(before, (length - k) as nat);
                }
                return Err(e);
            },
        };
        let ghost next_done = done.push(item@);
        proof {
            match parse_framed(data@, (length - k - 1) as nat) {
                Some((xs, tail)) => {
                    assert(done + (seq![item@] + xs) =~= next_done + xs);
                    assert((next_done + xs).take(k + 1) =~= next_done);
                },
                None => {},
            }
            assert(next_done.drop_last() =~= done);
        }
        let action = match ProofAction::<S>::deserialize(item) {
            Ok(action) => action,
            Err(e) => {
                proof {
                    if let Some((xs, tail)) = parse_framed(data@, (length - k - 1) as nat) {
                        lemma_parse_actions_prefix::<S>(next_done + xs, k + 1);
                    }
                }
                return Err(e);
            },
        };
        actions.push(action);
        proof {
            done = next_done;
        }
        k = k + 1;
    }
    proof {
        assert(done + seq![] =~= done);
    }
    Ok(actions)
}

/// A successful replay reaches every position, and the actions from any position take the state
/// there to the final state.
proof fn lemma_replay_proof<S: State>(
    state: ProofStateView<S>,
    actions: Seq<ProofAction<S>>,
    ranges: Seq<SlotRange>,
    n: nat,
    k: nat,
)
    requires
        k <= n <= actions.len(),
        replay_proof(state, actions, ranges, n) is Some,
        state.wf(),
    ensures
        replay_proof(state, actions, ranges, k) is Some,
        replay_proof(state, actions, ranges, k)->0.wf(),
        apply_all(replay_proof(state, actions, ranges, k)->0, actions.subrange(k as int, n as int))
            == replay_proof(state, actions, ranges, n),
    decreases n,
{
    if k == n {
        if n == 0 {
            assert(actions.subrange(0, 0) =~= Seq::<ProofAction<S>>::empty());
        } else {
            lemma_replay_proof(state, actions, ranges, (n - 1) as nat, (n - 1) as nat);
            lemma_apply_wf(replay_proof(state, actions, ranges, (n - 1) as nat)->0, actions[n - 1]);
            assert(actions.subrange(k as int, n as int) =~= Seq::<ProofAction<S>>::empty());
        }
    } else {
        lemma_replay_proof(state, actions, ranges, (n - 1) as nat, k);
        let sk = replay_proof(state, actions, ranges, k)->0;
        let prefix = actions.subrange(k as int, n - 1);
        assert(actions.subrange(k as int, n as int) =~= prefix.push(actions[n - 1]));
        lemma_apply_all_push(sk, prefix, actions[n - 1]);
    }
}


/// Before a successful replay reaches position `n`, the state at every earlier position agrees
/// with the slots.
proof fn lemma_replay_step_ok<S: State>(
    state: ProofStateView<S>,
    actions: Seq<ProofAction<S>>,
    ranges: Seq<SlotRange>,
    n: nat,
    k: nat,
)
    requires
        k < n <= actions.len(),
        replay_proof(state, actions, ranges, n) is Some,
    ensures
        replay_proof(state, actions, ranges, k) is Some,
        step_ok(replay_proof(state, actions, ranges, k)->0, k as int, ranges),
    decreases n,
{
    if k < n - 1 {
        lemma_replay_step_ok(state, actions, ranges, (n - 1) as nat, k);
    }
}


/// The end of a filled slot's range.
pub open spec fn range_end(r: SlotRange) -> int {
    match r {
        Some((_, end, _)) => end,
        None => 0,
    }
}

/// The signature of a filled slot.
pub open spec fn range_signature(r: SlotRange) -> Seq<u8> {
    match r {
        Some((_, _, signature)) => signature,
        None => seq![],
    }
}


/// Whether a slot's range, if any, lies within `count` actions.
pub open spec fn range_within(r: SlotRange, count: int) -> bool {
    match r {
        Some((start, end, _)) => 0 <= start <= end <= count,
        None => true,
    }
}

/// The models of three slots as read.
pub open spec fn ranges_of(
    r0: Option<(usize, usize, Signature)>,
    r1: Option<(usize, usize, Signature)>,
    r2: Option<(usize, usize, Signature)>,
) -> Seq<SlotRange> {
    seq![slot_range(r0), slot_range(r1), slot_range(r2)]
}

/// The model of an optional checkpoint.
spec fn slot_view<S: State>(x: Option<PlayerProof<S>>) -> Option<PlayerProofView<S>> {
    match x {
        Some(q) => Some(q@),
        None => None,
    }
}

fn starts_here(r: &Option<(usize, usize, Signature)>, i: usize) -> (b: bool)
    ensures
        b == starts_at(slot_range(*r), i as int),
{
    match r {
        Some((start, _, _)) => *start == i,
        None => false,
    }
}

fn inside_here(r: &Option<(usize, usize, Signature)>, i: usize) -> (b: bool)
    ensures
        b == inside(slot_range(*r), i as int),
{
    match r {
        Some((start, end, _)) => *start < i && i <= *end,
        None => false,
    }
}

fn covers_here(r: &Option<(usize, usize, Signature)>, i: usize) -> (b: bool)
    ensures
        b == covers(slot_range(*r), i as int),
{
    match r {
        Some((_, end, _)) => *end > i,
        None => false,
    }
}

/// Fills a slot with a copy of `state` when its range starts at position `i`.
fn fill_slot<S: State>(
    slot: &mut Option<PlayerProof<S>>,
    r: &Option<(usize, usize, Signature)>,
    state: &ProofState<S>,
    i: usize,
)
    ensures
        starts_at(slot_range(*r), i as int) ==> slot_view(*final(slot)) == Some(
            PlayerProofView {
                state: state@,
                start: i as int,
                end: range_end(slot_range(*r)),
                signature: range_signature(slot_range(*r)),
            },
        ),
        !starts_at(slot_range(*r), i as int) ==> *final(slot) == *old(slot),
{
    if let Some((start, end, signature)) = r {
        if *start == i {
            *slot = Some(PlayerProof { state: state.clone(), start: *start, end: *end, signature: *signature });
        }
    }
}

/// Checks the state at position `i` against the slots, and fills the slots that start there.
fn check_position<S: State>(
    state: &ProofState<S>,
    i: usize,
    r0: &Option<(usize, usize, Signature)>,
    r1: &Option<(usize, usize, Signature)>,
    r2: &Option<(usize, usize, Signature)>,
    p0: &mut Option<PlayerProof<S>>,
    p1: &mut Option<PlayerProof<S>>,
    p2: &mut Option<PlayerProof<S>>,
) -> (r: Result<(), String>)
    ensures
        r is Ok <==> step_ok(state@, i as int, ranges_of(*r0, *r1, *r2)),
        r is Ok ==> {
            &&& (starts_at(slot_range(*r0), i as int) ==> slot_view(*final(p0)) == Some(
                PlayerProofView {
                    state: state@,
                    start: i as int,
                    end: range_end(slot_range(*r0)),
                    signature: range_signature(slot_range(*r0)),
                },
            ))
            &&& (!starts_at(slot_range(*r0), i as int) ==> *final(p0) == *old(p0))
            &&& (starts_at(slot_range(*r1), i as int) ==> slot_view(*final(p1)) == Some(
                PlayerProofView {
                    state: state@,
                    start: i as int,
                    end: range_end(slot_range(*r1)),
                    signature: range_signature(slot_range(*r1)),
                },
            ))
            &&& (!starts_at(slot_range(*r1), i as int) ==> *final(p1) == *old(p1))
            &&& (starts_at(slot_range(*r2), i as int) ==> slot_view(*final(p2)) == Some(
                PlayerProofView {
                    state: state@,
                    start: i as int,
                    end: range_end(slot_range(*r2)),
                    signature: range_signature(slot_range(*r2)),
                },
            ))
            &&& (!starts_at(slot_range(*r2), i as int) ==> *final(p2) == *old(p2))
        },
{
    let serializable = starts_here(r0, i) || starts_here(r1, i) || starts_here(r2, i);
    let unserializable = inside_here(r0, i) || inside_here(r1, i) || inside_here(r2, i);
    if serializable || unserializable {
        let is_serializable = state.is_serializable();
        if serializable && !is_serializable {
            return Err("serializable && !is_serializable".to_owned());
        }
        if unserializable && is_serializable {
            return Err("unserializable && is_serializable".to_owned());
        }
        if serializable {
            fill_slot(p0, r0, state, i);
            fill_slot(p1, r1, state, i);
            fill_slot(p2, r2, state, i);
        }
    }
    Ok(())
}


/// A slot filled before position `i`: the checkpoint it names.
pub open spec fn filled_before<S: State>(
    state: ProofStateView<S>,
    actions: Seq<ProofAction<S>>,
    ranges: Seq<SlotRange>,
    r: SlotRange,
    i: int,
) -> Option<PlayerProofView<S>> {
    match r {
        Some((start, _, _)) => if start < i {
            slot_proof(state, actions, ranges, r)
        } else {
            None
        },
        None => None,
    }
}

/// Once a replay fails, it fails at every later position.
proof fn lemma_replay_none<S: State>(
    state: ProofStateView<S>,
    actions: Seq<ProofAction<S>>,
    ranges: Seq<SlotRange>,
    k: nat,
    n: nat,
)
    requires
        k <= n,
        replay_proof(state, actions, ranges, k) is None,
    ensures
        replay_proof(state, actions, ranges, n) is None,
    decreases n,
{
    if k < n {
        lemma_replay_none(state, actions, ranges, k, (n - 1) as nat);
    }
}

impl<S: State> Proof<S> {
    /// Replays a proof's actions from its first state, checking the states against the slots
    /// and the actions against the checkpoints that cover them, and collects the checkpoints.
    fn replay_checkpoints(
        state0: ProofState<S>,
        actions: &Vec<ProofAction<S>>,
        r0: &Option<(usize, usize, Signature)>,
        r1: &Option<(usize, usize, Signature)>,
        r2: &Option<(usize, usize, Signature)>,
    ) -> (r: Result<
        (Option<PlayerProof<S>>, Option<PlayerProof<S>>, Option<PlayerProof<S>>, ProofState<S>),
        String,
    >)
        requires
            state0@.wf(),
            range_within(slot_range(*r0), actions@.len() as int),
            range_within(slot_range(*r1), actions@.len() as int),
            range_within(slot_range(*r2), actions@.len() as int),
        ensures
            ({
                let ranges = ranges_of(*r0, *r1, *r2);
                let n = actions@.len();
                match replay_proof(state0@, actions@, ranges, n) {
                    None => r is Err,
                    Some(latest) => if !step_ok(latest, n as int, ranges) {
                        r is Err
                    } else {
                        r matches Ok((a, b, c, l)) && l@ == latest && slot_view(a) == slot_proof(
                            state0@,
                            actions@,
                            ranges,
                            ranges[0],
                        ) && slot_view(b) == slot_proof(state0@, actions@, ranges, ranges[1])
                            && slot_view(c) == slot_proof(state0@, actions@, ranges, ranges[2])
                    },
                }
            }),
    {
        let ghost s0 = state0@;
        let ghost ranges = ranges_of(*r0, *r1, *r2);
        let mut state = state0;
        let mut p0: Option<PlayerProof<S>> = None;
        let mut p1: Option<PlayerProof<S>> = None;
        let mut p2: Option<PlayerProof<S>> = None;
        let n = actions.len();
        let mut i: usize = 0;
        while i < n
            invariant
                i <= n,
                n == actions@.len(),
                ranges == ranges_of(*r0, *r1, *r2),
                s0 == state0@,
                replay_proof(s0, actions@, ranges, i as nat) == Some(state@),
                state@.wf(),
                slot_view(p0) == filled_before(s0, actions@, ranges, ranges[0], i as int),
                slot_view(p1) == filled_before(s0, actions@, ranges, ranges[1], i as int),
                slot_view(p2) == filled_before(s0, actions@, ranges, ranges[2], i as int),
            decreases n - i,
        {
            match check_position(&state, i, r0, r1, r2, &mut p0, &mut p1, &mut p2) {
                Ok(()) => {},
                Err(e) => {
                    proof {
                        assert(!step_ok(state@, i as int, ranges));
                        assert(replay_proof(s0, actions@, ranges, (i + 1) as nat) is None);
                        lemma_replay_none(s0, actions@, ranges, (i + 1) as nat, n as nat);
                    }
                    return Err(e);
                },
            }
            let action = &actions[i];
            let permitted = covers_here(r0, i) || match action.player {
                Some(p) => p < 2 && covers_here(if p == 0 { r1 } else { r2 }, i),
                None => false,
            };
            if !permitted {
                proof {
                    lemma_replay_none(s0, actions@, ranges, (i + 1) as nat, n as nat);
                }
                return Err("action is not covered by a checkpoint of its performer".to_owned());
            }
            let ghost prev = state@;
            match state.apply(action) {
                Ok(()) => {},
                Err(e) => {
                    proof {
                        assert(apply_spec(prev, actions@[i as int]) is None);
                        assert(replay_proof(s0, actions@, ranges, (i + 1) as nat) is None);
                        lemma_replay_none(s0, actions@, ranges, (i + 1) as nat, n as nat);
                    }
                    return Err(e);
                },
            }
            proof {
                lemma_apply_wf(prev, actions@[i as int]);
            }
            i = i + 1;
        }
        check_position(&state, n, r0, r1, r2, &mut p0, &mut p1, &mut p2)?;
        Ok((p0, p1, p2, state))
    }
}

/// Checks the signature of a checkpoint slot.
fn check_slot_signature<S: State>(
    slot: &Option<PlayerProof<S>>,
    j: usize,
    actions: &Vec<ProofAction<S>>,
    latest: &ProofState<S>,
    owner: &Address,
) -> (r: Result<(), String>)
    requires
        1 <= j <= 2 || j == 0,
        slot matches Some(q) ==> q.start <= q.end <= actions@.len() && state_serializable(q.state@),
        forall|i: int| 0 <= i < actions@.len() ==> action_writable(#[trigger] actions@[i]),
    ensures
        r is Ok <==> slot_signed(slot_view(*slot), j as int, actions@, latest@, *owner),
{
    match slot {
        None => Ok(()),
        Some(q) => {
            let mut message = match q.state.serialize() {
                Some(message) => message,
                None => {
                    assert(false);
                    return Err("proof.state.serialize().is_none()".to_owned());
                },
            };
            let (before, _) = actions.as_slice().split_at(q.end);
            let (_, signed) = before.split_at(q.start);
            proof {
                assert(signed@ =~= actions@.subrange(q.start as int, q.end as int));
                assert forall|i: int| 0 <= i < signed@.len() implies action_writable(
                    #[trigger] signed@[i],
                ) by {
                    assert(signed@[i] == actions@[q.start + i]);
                }
            }
            extend_with_actions(&mut message, signed);
            let author = recover(message.as_slice(), q.signature.as_slice())?;
            proof {
                lemma_array20(author);
                lemma_array20(*owner);
            }
            if j == 0 {
                if !address_eq(&author, owner) {
                    return Err("author != self.root.author".to_owned());
                }
            } else {
                let expected: u8 = if j == 1 { 0 } else { 1 };
                if !same_player(latest.player(&author, owner), Some(expected)) {
                    return Err("state.player(author) != Some(i - 1)".to_owned());
                }
            }
            Ok(())
        },
    }
}


/// A slot that a successful replay names holds a well-formed checkpoint with a binary
/// representation, within the actions, from which the remaining actions reach the latest state.
proof fn lemma_slot_proof<S: State>(
    state: ProofStateView<S>,
    actions: Seq<ProofAction<S>>,
    ranges: Seq<SlotRange>,
    latest: ProofStateView<S>,
    j: int,
)
    requires
        state.wf(),
        0 <= j < 3,
        ranges.len() == 3,
        range_within(ranges[j], actions.len() as int),
        replay_proof(state, actions, ranges, actions.len()) == Some(latest),
        step_ok(latest, actions.len() as int, ranges),
    ensures
        slot_proof(state, actions, ranges, ranges[j]) matches Some(q) ==> {
            &&& 0 <= q.start <= q.end <= actions.len()
            &&& q.state.wf()
            &&& state_serializable(q.state)
            &&& apply_all(q.state, actions.skip(q.start)) == Some(latest)
        },
{
    if let Some((start, end, signature)) = ranges[j] {
        let n = actions.len();
        lemma_replay_proof(state, actions, ranges, n, start as nat);
        assert(actions.subrange(start, n as int) =~= actions.skip(start));
        if start < n {
            lemma_replay_step_ok(state, actions, ranges, n, start as nat);
        }
        assert(starts_at(ranges[j], start));
    }
}

/// Whether a checkpoint slot, if filled, has a state whose binary representation fits in 32 bits.
fn slot_fits<S: State>(slot: &Option<PlayerProof<S>>) -> (r: bool)
    requires
        slot_view(*slot) matches Some(q) ==> state_serializable(q.state),
    ensures
        r == (slot_view(*slot) matches Some(q) ==> state_bytes(q.state).len() <= u32::MAX),
{
    match slot {
        None => true,
        Some(q) => match q.state.serialize() {
            Some(bytes) => bytes.len() <= 0xffff_ffff,
            None => {
                assert(false);
                false
            },
        },
    }
}

impl<S: State> Proof<S> {
    /// Builds the proof that a first state, actions and checkpoint slots describe, for this
    /// proof's root: replays the actions, collects and checks the checkpoints.
    #[verifier::spinoff_prover]
    #[verifier::rlimit(40)]
    fn assemble(
        &self,
        state0: ProofState<S>,
        actions: Vec<ProofAction<S>>,
        r0: Option<(usize, usize, Signature)>,
        r1: Option<(usize, usize, Signature)>,
        r2: Option<(usize, usize, Signature)>,
        hash: [u8; 32],
    ) -> (r: Result<Self, String>)
        requires
            state0@.wf(),
            actions@.len() <= u32::MAX,
            range_within(slot_range(r0), actions@.len() as int),
            range_within(slot_range(r1), actions@.len() as int),
            range_within(slot_range(r2), actions@.len() as int),
            starts_at(slot_range(r0), 0) || starts_at(slot_range(r1), 0) || starts_at(
                slot_range(r2),
                0,
            ),
            !(r0 is None && (r1 is None || r2 is None)),
        ensures
            match proof_from_parts(
                self@.root,
                state0@,
                actions@,
                ranges_of(r0, r1, r2),
                hash@,
            ) {
                Some(v) => r matches Ok(p) && p@ == v,
                None => r is Err,
            },
    {
        proof {
            use_type_invariant(self);
            reveal(proof_from_parts);
        }
        let ghost s0 = state0@;
        let ghost ranges = ranges_of(r0, r1, r2);
        let ghost n = actions@.len();
        let (p0, p1, p2, latest) = Proof::<S>::replay_checkpoints(state0, &actions, &r0, &r1, &r2)?;
        proof {
            lemma_replay_proof(s0, actions@, ranges, n, n);
            lemma_slot_proof(s0, actions@, ranges, latest@, 0);
            lemma_slot_proof(s0, actions@, ranges, latest@, 1);
            lemma_slot_proof(s0, actions@, ranges, latest@, 2);
        }
        if !all_writable(actions.as_slice()) {
            return Err("actions cannot all be written".to_owned());
        }
        check_slot_signature(&p0, 0, &actions, &latest, &self.root.author)?;
        check_slot_signature(&p1, 1, &actions, &latest, &self.root.author)?;
        check_slot_signature(&p2, 2, &actions, &latest, &self.root.author)?;
        if !(slot_fits(&p0) && slot_fits(&p1) && slot_fits(&p2)) {
            proof {
                let proofs = seq![slot_view(p0), slot_view(p1), slot_view(p2)];
                if !slot_fits_spec(slot_view(p0)) {
                    assert(!(proofs[0] matches Some(q) ==> state_bytes(q.state).len() <= u32::MAX));
                } else if !slot_fits_spec(slot_view(p1)) {
                    assert(!(proofs[1] matches Some(q) ==> state_bytes(q.state).len() <= u32::MAX));
                } else {
                    assert(!(proofs[2] matches Some(q) ==> state_bytes(q.state).len() <= u32::MAX));
                }
            }
            return Err("checkpoint state too large".to_owned());
        }
        let root = self.root.clone();
        let mut proofs: Vec<Option<PlayerProof<S>>> = Vec::new();
        proofs.push(p0);
        proofs.push(p1);
        proofs.push(p2);
        proof {
            let pv = proofs_view(proofs@);
            assert(pv =~= seq![
                slot_proof(s0, actions@, ranges, ranges[0]),
                slot_proof(s0, actions@, ranges, ranges[1]),
                slot_proof(s0, actions@, ranges, ranges[2]),
            ]);
            reveal(slot_wf);
            assert forall|i: int| 0 <= i < 3 implies ((#[trigger] pv[i]) matches Some(p)
                ==> slot_wf(p, actions@, latest@)) by {}
            if starts_at(ranges[0], 0) {
                lemma_base_index_exists(pv, 0);
            } else if starts_at(ranges[1], 0) {
                lemma_base_index_exists(pv, 1);
            } else {
                lemma_base_index_exists(pv, 2);
            }
        }
        Ok(Proof { root, actions, proofs, hash, state: latest })
    }
}

/// Whether a checkpoint, if any, has a state whose binary representation fits in 32 bits.
pub open spec fn slot_fits_spec<S: State>(slot: Option<PlayerProofView<S>>) -> bool {
    slot matches Some(q) ==> state_bytes(q.state).len() <= u32::MAX
}


/// Whether two consensus states have the same players.
fn players_equal<S: State>(a: &ProofState<S>, b: &ProofState<S>) -> (r: bool)
    ensures
        r == (a@.players == b@.players),
{
    let x = a.players();
    let y = b.players();
    let same = address_eq(&x[0], &y[0]) && address_eq(&x[1], &y[1]);
    proof {
        if same {
            assert(a@.players =~= b@.players);
        }
    }
    same
}

impl<S: State> Proof<S> {
    /// Reads a proof of this proof's root proof from its binary representation.
    ///
    /// See [Proof::deserialize].
    #[verifier::spinoff_prover]
    #[verifier::rlimit(40)]
    pub fn parsed(&self, data: &[u8]) -> (r: Result<Self, String>)
        ensures
            match parse_proof(self@.root, data@) {
                Some(v) => r matches Ok(p) && p@ == v,
                None => r is Err,
            },
    {
        proof {
            reveal(parse_proof);
        }
        if data.len() < 84 {
            return Err("data.len() < the size of the smallest proof".to_owned());
        }
        let hash = keccak256(data);
        let mut cur = data;
        let size = read_u32_usize(&mut cur)?;
        if cur.len() < size {
            return Err("data.len() < size".to_owned());
        }
        let (head, tail) = cur.split_at(size);
        proof {
            assert(head@ =~= data@.skip(4).take(size as int));
            assert(tail@ =~= data@.skip(4).skip(size as int));
        }
        let state = ProofState::<S>::deserialize(head)?;
        cur = tail;
        let id = state.id().serialize();
        let root_id = self.root.state.id().serialize();
        if !slices_equal(id.as_slice(), root_id.as_slice()) {
            return Err("state.id != self.root.state.id".to_owned());
        }
        if !players_equal(&state, &self.root.state) {
            return Err("state.players != self.root.state.players".to_owned());
        }
        let length = read_u32_usize(&mut cur)?;
        let actions = read_actions::<S>(&mut cur, length)?;
        let count = actions.len();
        let r0 = read_slot(&mut cur, count)?;
        let r1 = read_slot(&mut cur, count)?;
        let r2 = read_slot(&mut cur, count)?;
        if cur.len() != 0 {
            return Err("!data.is_empty()".to_owned());
        }
        if !(starts_here(&r0, 0) || starts_here(&r1, 0) || starts_here(&r2, 0)) {
            return Err("!minimal".to_owned());
        }
        if r0.is_none() && (r1.is_none() || r2.is_none()) {
            return Err("ranges[0].is_none() && ranges[1..].iter().any(Option::is_none)".to_owned());
        }
        self.assemble(state, actions, r0, r1, r2, hash)
    }

    /// Updates the proof from a binary representation of a proof of the same root proof.
    ///
    /// The binary representation must have been constructed using [Proof::serialize]. The
    /// proof is left unchanged when the data is refused.
    pub fn deserialize(&mut self, data: &[u8]) -> (r: Result<(), String>)
        ensures
            match parse_proof(old(self)@.root, data@) {
                Some(v) => r is Ok && final(self)@ == v,
                None => r is Err && final(self)@ == old(self)@,
            },
    {
        match self.parsed(data) {
            Ok(p) => {
                *self = p;
                Ok(())
            },
            Err(e) => Err(e),
        }
    }
}


/// Clones checkpoint slots.
fn clone_slots<S: State>(proofs: &Vec<Option<PlayerProof<S>>>) -> (r: Vec<Option<PlayerProof<S>>>)
    ensures
        proofs_view(r@) == proofs_view(proofs@),
{
    let mut out: Vec<Option<PlayerProof<S>>> = Vec::new();
    let mut i: usize = 0;
    while i < proofs.len()
        invariant
            i <= proofs@.len(),
            out@.len() == i,
            proofs_view(out@) == proofs_view(proofs@).take(i as int),
        decreases proofs@.len() - i,
    {
        let slot = match &proofs[i] {
            Some(q) => Some(q.clone()),
            None => None,
        };
        let ghost before = out@;
        out.push(slot);
        proof {
            assert(out@ =~= before.push(slot));
            assert(proofs_view(out@) =~= proofs_view(proofs@).take(i + 1));
        }
        i = i + 1;
    }
    assert(proofs_view(proofs@).take(i as int) =~= proofs_view(proofs@));
    out
}

impl<S: State> Clone for Proof<S> {
    /// A copy of the proof. Its latest state is the one that the actions after any checkpoint
    /// reach, so copying it is the same as replaying them.
    fn clone(&self) -> (r: Self)
        ensures
            r@ == self@,
    {
        proof {
            use_type_invariant(self);
        }
        Proof {
            root: self.root.clone(),
            actions: clone_actions(self.actions.as_slice()),
            proofs: clone_slots(&self.proofs),
            hash: self.hash,
            state: self.state.clone(),
        }
    }
}


/// The latest state after the first `n` actions of a diff is the proof's latest state taken
/// through those actions.
proof fn lemma_scan_diff_state<S: State>(
    v: ProofView<S>,
    actions: Seq<ProofAction<S>>,
    player: Option<Player>,
    n: nat,
)
    requires
        n <= actions.len(),
        scan_diff(v, actions, player, n) is Some,
    ensures
        apply_all(v.state, actions.take(n as int)) == Some((scan_diff(v, actions, player, n)->0).0),
    decreases n,
{
    if n == 0 {
        assert(actions.take(0) =~= Seq::<ProofAction<S>>::empty());
    } else {
        lemma_scan_diff_state(v, actions, player, (n - 1) as nat);
        assert(actions.take(n as int) =~= actions.take(n - 1).push(actions[n - 1]));
        lemma_apply_all_push(v.state, actions.take(n - 1), actions[n - 1]);
    }
}

/// The checkpoint a scan keeps starts within the proof's actions followed by those scanned.
proof fn lemma_scan_start<S: State>(
    v: ProofView<S>,
    actions: Seq<ProofAction<S>>,
    player: Option<Player>,
    n: nat,
)
    requires
        v.wf(),
        scan_diff(v, actions, player, n) is Some,
    ensures
        0 <= (scan_diff(v, actions, player, n)->0).2 <= v.actions.len() + n,
    decreases n,
{
    if n == 0 {
        lemma_base_index(v.proofs);
        lemma_latest_index(v.proofs);
        reveal(slot_wf);
        let i = latest_index(v.proofs);
        assert(v.proofs[i] matches Some(p) ==> slot_wf(p, v.actions, v.state));
    } else {
        lemma_scan_start(v, actions, player, (n - 1) as nat);
    }
}

/// A proof that a diff by the root author yields holds the latest state, the root proof, the
/// actions from the kept checkpoint on, and the digest of its binary representation.
proof fn lemma_finish_owner<S: State>(
    v: ProofView<S>,
    d: DiffView<S>,
    latest: ProofStateView<S>,
    state: ProofStateView<S>,
    start: int,
)
    requires
        finish_owner(v, d, latest, state, start) is Ok,
    ensures
        finish_owner(v, d, latest, state, start) matches Ok(w) && w.state == latest && w.root
            == v.root && w.hash == keccak256_spec(proof_bytes(w)) && w.actions == (v.actions
            + d.actions).skip(start),
{
    reveal(finish_owner);
}

/// A proof that a diff by a player yields holds the latest state, the root proof, the actions
/// from the earliest kept checkpoint on, and the digest of its binary representation.
proof fn lemma_finish_player<S: State>(
    v: ProofView<S>,
    d: DiffView<S>,
    p: Player,
    latest: ProofStateView<S>,
    state: ProofStateView<S>,
    start: int,
)
    requires
        finish_player(v, d, p, latest, state, start) is Ok,
    ensures
        finish_player(v, d, p, latest, state, start) matches Ok(w) && w.state == latest && w.root
            == v.root && w.hash == keccak256_spec(proof_bytes(w)) && w.actions == (v.actions
            + d.actions).skip(player_offset(v.proofs, p, start)),
{
    reveal(finish_player);
}

/// Where the actions kept after a player's diff begin lies between the first action and the
/// start of the player's new checkpoint.
proof fn lemma_offset_bounds<S: State>(v: ProofView<S>, p: Player, start: int)
    requires
        v.wf(),
        p < 2,
        0 <= start,
    ensures
        0 <= player_offset(v.proofs, p, start) <= start,
{
    reveal(slot_wf);
    let other = 2 - p;
    assert(v.proofs[other] matches Some(q) ==> slot_wf(q, v.actions, v.state));
    assert(v.proofs[0] matches Some(q) ==> slot_wf(q, v.actions, v.state));
}

/// Applying a diff to a proof takes the proof's latest state through the diff's actions and
/// keeps its root proof; the actions the proof holds afterwards are the last of its actions
/// followed by the diff's, and its digest is that of its binary representation.
#[verifier::spinoff_prover]
#[verifier::rlimit(80)]
pub proof fn lemma_apply_diff<S: State>(v: ProofView<S>, d: DiffView<S>)
    requires
        v.wf(),
        apply_diff(v, d) is Ok,
    ensures
        apply_diff(v, d) matches Ok(w) && {
            &&& apply_all(v.state, d.actions) == Some(w.state)
            &&& w.root == v.root
            &&& w.hash == keccak256_spec(proof_bytes(w))
            &&& exists|k: int|
                0 <= k <= v.actions.len() + d.actions.len() && w.actions == (v.actions
                    + d.actions).skip(k)
        },
{
    let player = diff_player(v, d)->0;
    let n = d.actions.len();
    let sc = scan_diff(v, d.actions, player, n);
    assert(sc is Some);
    let (latest, state, start) = sc->0;
    assert(apply_all(v.state, d.actions) == Some(latest)) by {
        lemma_scan_diff_state(v, d.actions, player, n);
        assert(d.actions.take(n as int) =~= d.actions);
    }
    assert(0 <= start <= v.actions.len() + n) by {
        lemma_scan_start(v, d.actions, player, n);
    }
    let all = v.actions + d.actions;
    if player is None {
        lemma_finish_owner(v, d, latest, state, start);
        let w = apply_diff(v, d)->Ok_0;
        assert(w.actions == all.skip(start));
    } else {
        let p = player->0;
        assert(p < 2) by {
            reveal(player_of);
        }
        lemma_finish_player(v, d, p, latest, state, start);
        lemma_offset_bounds(v, p, start);
        let w = apply_diff(v, d)->Ok_0;
        assert(w.actions == all.skip(player_offset(v.proofs, p, start)));
    }
}


/// When the author may submit every action, scanning a diff's actions as the author is the same
/// as scanning them as its generator does.
proof fn lemma_scan_same<S: State>(
    v: ProofView<S>,
    actions: Seq<ProofAction<S>>,
    player: Option<Player>,
    n: nat,
)
    requires
        n <= actions.len(),
        forall|i: int| 0 <= i < actions.len() ==> action_permitted(#[trigger] actions[i], player),
    ensures
        scan_diff(v, actions, player, n) == scan_actions(v, actions, n),
    decreases n,
{
    if n > 0 {
        lemma_scan_same(v, actions, player, (n - 1) as nat);
        assert(action_permitted(actions[n - 1], player));
    }
}

/// The checkpoint a player's diff would leave, and the checkpoints it would keep.
pub open spec fn kept_slots<S: State>(
    v: ProofView<S>,
    d: DiffView<S>,
    p: Player,
    state: ProofStateView<S>,
    start: int,
) -> Seq<Option<PlayerProofView<S>>> {
    let slot = PlayerProofView {
        state,
        start,
        end: (v.actions.len() + d.actions.len()) as int,
        signature: d.proof_signature,
    };
    player_slots(v.proofs, p, slot, player_offset(v.proofs, p, start))
}

/// A diff generated from a proof (as [Proof::diff] describes its result, with the latest state,
/// checkpoint state and checkpoint position its scan reached) is accepted by [Proof::apply] on
/// that proof, which then holds that latest state. Left out are the diffs that applying refuses
/// although generating accepted them: those whose author acts as another player (or as none)
/// before the actions than after them, those with an action the author may not submit, those
/// whose kept actions or checkpoint state do not fit their 32-bit lengths, and a player's diff
/// after which a kept checkpoint would start before the actions kept.
#[verifier::spinoff_prover]
pub proof fn lemma_diff_accepted<S: State>(
    v: ProofView<S>,
    d: DiffView<S>,
    latest: ProofStateView<S>,
    state: ProofStateView<S>,
    start: int,
)
    requires
        v.wf(),
        d.digest == v.hash,
        v.actions.len() + d.actions.len() <= usize::MAX,
        same_performer(d.actions),
        scan_actions(v, d.actions, d.actions.len()) == Some((latest, state, start)),
        recover_spec(
            state_bytes(state) + actions_message((v.actions + d.actions).skip(start)),
            d.proof_signature,
        ) == Some(d.author@),
        d.author == v.root.author || (player_of(latest, d.author, v.root.author) matches Some(p)
            && (d.actions.len() > 0 ==> d.actions[0].player == Some(p))),
        d.author != v.root.author ==> player_of(v.state, d.author, v.root.author) == player_of(
            latest,
            d.author,
            v.root.author,
        ),
        forall|i: int|
            0 <= i < d.actions.len() ==> action_permitted(
                #[trigger] d.actions[i],
                diff_player(v, d)->0,
            ),
        state_bytes(state).len() <= u32::MAX,
        d.author == v.root.author ==> (v.actions + d.actions).skip(start).len() <= u32::MAX,
        d.author != v.root.author ==> (player_of(v.state, d.author, v.root.author) matches Some(p)
            && (v.actions + d.actions).skip(player_offset(v.proofs, p, start)).len() <= u32::MAX
            && !(exists|i: int|
            0 <= i < 3 && starts_before(#[trigger] kept_slots(v, d, p, state, start)[i], player_offset(v.proofs, p, start)))),
    ensures
        apply_diff(v, d) matches Ok(w) && w.state == latest,
{
    let player = diff_player(v, d)->0;
    let n = d.actions.len();
    lemma_scan_same(v, d.actions, player, n);
    if d.author == v.root.author {
        reveal(finish_owner);
        assert(apply_diff(v, d) == finish_owner(v, d, latest, state, start));
    } else {
        reveal(finish_player);
        lemma_array20(d.author);
        let p = player->0;
        assert(apply_diff(v, d) == finish_player(v, d, p, latest, state, start));
        let offset = player_offset(v.proofs, p, start);
        let slot = PlayerProofView {
            state,
            start,
            end: (v.actions + d.actions).len() as int,
            signature: d.proof_signature,
        };
        assert(kept_slots(v, d, p, state, start) == player_slots(v.proofs, p, slot, offset));
    }
}


// ---------------------------------------------------------------------------
// Reading back what was written
// ---------------------------------------------------------------------------

/// The range model of a checkpoint slot.
pub open spec fn range_of<S: State>(p: Option<PlayerProofView<S>>) -> SlotRange {
    match p {
        Some(q) => Some((q.start, q.end, q.signature)),
        None => None,
    }
}

/// The range models of checkpoint slots.
pub open spec fn slot_ranges<S: State>(proofs: Seq<Option<PlayerProofView<S>>>) -> Seq<SlotRange> {
    seq![range_of(proofs[0]), range_of(proofs[1]), range_of(proofs[2])]
}

/// The checkpoints agree with the actions, as reading a proof checks: replaying the actions
/// from the state of the first checkpoint that starts at the first action, every state where a
/// checkpoint starts has a binary representation and none inside a checkpoint's range does,
/// every action is covered by a checkpoint of its performer, each checkpoint holds the replayed
/// state where it starts and is signed as its slot requires, and the replay ends at the latest
/// state; that first state has the root proof's identifier and players; and the digest is that
/// of the proof's binary representation.
#[verifier::opaque]
pub open spec fn checkpoints_agree<S: State>(v: ProofView<S>) -> bool {
    let base = v.proofs[base_index(v.proofs)]->0.state;
    let ranges = slot_ranges(v.proofs);
    let n = v.actions.len();
    &&& replay_proof(base, v.actions, ranges, n) == Some(v.state)
    &&& step_ok(v.state, n as int, ranges)
    &&& slot_proof(base, v.actions, ranges, ranges[0]) == v.proofs[0]
    &&& slot_proof(base, v.actions, ranges, ranges[1]) == v.proofs[1]
    &&& slot_proof(base, v.actions, ranges, ranges[2]) == v.proofs[2]
    &&& slot_signed(v.proofs[0], 0, v.actions, v.state, v.root.author)
    &&& slot_signed(v.proofs[1], 1, v.actions, v.state, v.root.author)
    &&& slot_signed(v.proofs[2], 2, v.actions, v.state, v.root.author)
    &&& base.id.spec_serialize() == v.root.state.id.spec_serialize()
    &&& base.players == v.root.state.players
    &&& v.hash == keccak256_spec(proof_bytes(v))
}

/// Reading a written checkpoint slot gives back its range and what follows it.
proof fn lemma_parse_slot_of<S: State>(p: Option<PlayerProofView<S>>, rest: Seq<u8>, count: int)
    requires
        count <= u32::MAX,
        p matches Some(q) ==> 0 <= q.start <= q.end <= count && q.signature.len() == 65,
    ensures
        parse_slot(player_proof_bytes(p) + rest, count) == Some((range_of(p), rest)),
{
    let data = player_proof_bytes(p) + rest;
    match p {
        None => {
            assert(data.skip(1) =~= rest);
        },
        Some(q) => {
            lemma_le_u32_roundtrip(q.start);
            lemma_le_u32_roundtrip(q.end);
            let b1 = le_u32_bytes(q.start);
            let b2 = le_u32_bytes(q.end);
            assert(data =~= seq![1u8] + b1 + b2 + q.signature + rest);
            assert(data.skip(1).take(4) =~= b1);
            assert(data.skip(5).take(4) =~= b2);
            assert(le_u32_value(data.skip(1)) == le_u32_value(b1));
            assert(le_u32_value(data.skip(5)) == le_u32_value(b2));
            assert(data.skip(9) =~= q.signature + rest);
            assert(data.skip(9).take(65) =~= q.signature);
            assert(data.skip(9).skip(65) =~= rest);
        },
    }
}

/// The binary representation of three checkpoint slots is theirs one after the other.
proof fn lemma_proofs_bytes3<S: State>(ps: Seq<Option<PlayerProofView<S>>>)
    requires
        ps.len() == 3,
    ensures
        proofs_bytes(ps) == player_proof_bytes(ps[0]) + (player_proof_bytes(ps[1]) + (
        player_proof_bytes(ps[2]) + seq![])),
{
    let i0 = ps.map_values(|p: Option<PlayerProofView<S>>| player_proof_bytes(p));
    let i1 = i0.drop_first();
    let i2 = i1.drop_first();
    let i3 = i2.drop_first();
    assert(i3.len() == 0);
    assert(concat_all(i3) == Seq::<u8>::empty());
    assert(concat_all(i2) == i2[0] + concat_all(i3));
    assert(concat_all(i1) == i1[0] + concat_all(i2));
    assert(concat_all(i0) == i0[0] + concat_all(i1));
    assert(i0[0] == player_proof_bytes(ps[0]));
    assert(i1[0] == player_proof_bytes(ps[1]));
    assert(i2[0] == player_proof_bytes(ps[2]));
}

/// The checkpoints of a well-formed proof lie within its actions, with full signatures.
proof fn lemma_slot_bounds<S: State>(v: ProofView<S>)
    requires
        v.wf(),
    ensures
        forall|j: int|
            0 <= j < 3 ==> ((#[trigger] v.proofs[j]) matches Some(q) ==> 0 <= q.start <= q.end
                <= v.actions.len() && q.signature.len() == 65 && q.state.wf() && state_serializable(
                q.state,
            ) && state_bytes(q.state).len() <= u32::MAX),
{
    reveal(slot_wf);
    assert forall|j: int| 0 <= j < 3 implies ((#[trigger] v.proofs[j]) matches Some(q) ==> 0
        <= q.start <= q.end <= v.actions.len() && q.signature.len() == 65 && q.state.wf()
        && state_serializable(q.state) && state_bytes(q.state).len() <= u32::MAX) by {
        assert(v.proofs[j] matches Some(q) ==> slot_wf(q, v.actions, v.state));
    }
}

/// Reading the written checkpoint slots of a well-formed proof gives back their ranges.
proof fn lemma_parse_slots_of<S: State>(v: ProofView<S>)
    requires
        v.wf(),
    ensures
        parse_slots(proofs_bytes(v.proofs), v.actions.len() as int) == Some(slot_ranges(v.proofs)),
{
    let n = v.actions.len() as int;
    let ps = v.proofs;
    lemma_slot_bounds(v);
    assert(ps[0] == v.proofs[0] && ps[1] == v.proofs[1] && ps[2] == v.proofs[2]);
    lemma_proofs_bytes3(ps);
    let b1 = player_proof_bytes(ps[1]);
    let b2 = player_proof_bytes(ps[2]);
    lemma_parse_slot_of(ps[0], b1 + (b2 + seq![]), n);
    lemma_parse_slot_of(ps[1], b2 + seq![], n);
    lemma_parse_slot_of(ps[2], seq![], n);
    lemma_base_index(ps);
    let b = base_index(ps);
    assert(starts_at(range_of(ps[b]), 0));
}

/// A well-formed proof's binary representation is long enough to be read: its slots take at
/// least one filled slot and two bytes.
#[verifier::spinoff_prover]
proof fn lemma_proofs_bytes_len<S: State>(v: ProofView<S>)
    requires
        v.wf(),
    ensures
        proof_bytes(v).len() >= 84,
{
    lemma_base_index(v.proofs);
    let ps = v.proofs;
    lemma_proofs_bytes3(ps);
    let bi = base_index(ps);
    assert(player_proof_bytes(ps[bi]).len() >= 74) by {
        lemma_slot_bounds(v);
    }
    lemma_le_u32_roundtrip(v.actions.len() as int);
}

/// A well-formed proof whose checkpoints agree with its actions is the one its parts describe.
#[verifier::spinoff_prover]
#[verifier::rlimit(60)]
proof fn lemma_proof_parts<S: State>(v: ProofView<S>)
    requires
        v.wf(),
        checkpoints_agree(v),
    ensures
        proof_from_parts(
            v.root,
            v.proofs[base_index(v.proofs)]->0.state,
            v.actions,
            slot_ranges(v.proofs),
            v.hash,
        ) == Some(v),
{
    reveal(checkpoints_agree);
    reveal(proof_from_parts);
    lemma_slot_bounds(v);
    let base = v.proofs[base_index(v.proofs)]->0.state;
    let ranges = slot_ranges(v.proofs);
    let proofs = seq![
        slot_proof(base, v.actions, ranges, ranges[0]),
        slot_proof(base, v.actions, ranges, ranges[1]),
        slot_proof(base, v.actions, ranges, ranges[2]),
    ];
    let n = v.actions.len();
    assert(proofs =~= v.proofs);
    assert(replay_proof(base, v.actions, ranges, n) == Some(v.state));
    assert(step_ok(v.state, n as int, ranges));
    assert(slot_signed(proofs[0], 0, v.actions, v.state, v.root.author));
    assert(slot_signed(proofs[1], 1, v.actions, v.state, v.root.author));
    assert(slot_signed(proofs[2], 2, v.actions, v.state, v.root.author));
    assert(actions_writable(v.actions));
    assert forall|j: int| 0 <= j < 3 implies (#[trigger] proofs[j] matches Some(q) ==> state_bytes(
        q.state,
    ).len() <= u32::MAX) by {
        assert(proofs[j] == v.proofs[j]);
    }
    let w = ProofView { root: v.root, actions: v.actions, proofs, hash: v.hash, state: v.state };
    assert(w == v);
}

/// Reading back the binary representation of a well-formed proof whose checkpoints agree with
/// its actions, and whose first state's identifier reads back, gives back the proof.
#[verifier::spinoff_prover]
#[verifier::rlimit(80)]
pub proof fn lemma_proof_roundtrip<S: State>(v: ProofView<S>)
    requires
        v.wf(),
        checkpoints_agree(v),
        id_roundtrips(v.proofs[base_index(v.proofs)]->0.state.id),
    ensures
        parse_proof(v.root, proof_bytes(v)) == Some(v),
{
    reveal(checkpoints_agree);
    reveal(parse_proof);
    lemma_base_index(v.proofs);
    lemma_slot_bounds(v);
    let bi = base_index(v.proofs);
    let base = v.proofs[bi]->0;
    assert(v.proofs[bi] == v.proofs[bi]);
    let sb = state_bytes(base.state);
    let n = v.actions.len();
    let fa = actions_framed(v.actions);
    let pb = proofs_bytes(v.proofs);
    let data = proof_bytes(v);
    let r2 = le_u32_bytes(n as int) + fa + pb;
    lemma_le_u32_roundtrip(sb.len() as int);
    lemma_le_u32_roundtrip(n as int);
    assert(data =~= le_u32_bytes(sb.len() as int) + (sb + r2));
    assert(data.skip(4) =~= sb + r2);
    assert((sb + r2).take(sb.len() as int) =~= sb);
    assert((sb + r2).skip(sb.len() as int) =~= r2);
    assert(le_u32_value(data) == le_u32_value(le_u32_bytes(sb.len() as int)));
    lemma_state_roundtrip(base.state);
    assert(r2.skip(4) =~= fa + pb);
    assert(le_u32_value(r2) == le_u32_value(le_u32_bytes(n as int)));
    let items = v.actions.map_values(|a: ProofAction<S>| action_bytes(a));
    assert forall|i: int| 0 <= i < items.len() implies (#[trigger] items[i]).len() <= u32::MAX by {
        assert(items[i] == action_bytes(v.actions[i]));
    }
    lemma_parse_framed_roundtrip(items, pb);
    lemma_parse_actions_of(v.actions);
    lemma_parse_slots_of(v);
    lemma_proofs_bytes_len(v);
    lemma_proof_parts(v);
}


/// The slot ranges of a proof made from a root proof: the owner's checkpoint covers all the
/// actions.
pub open spec fn owner_ranges(n: int, signature: Seq<u8>) -> Seq<SlotRange> {
    seq![Some((0, n, signature)), None, None]
}

/// Replaying a root proof's actions under the owner's checkpoint alone reaches, at each
/// position, the state the actions before it reach.
proof fn lemma_replay_owner<S: State>(
    state: ProofStateView<S>,
    actions: Seq<ProofAction<S>>,
    signature: Seq<u8>,
    k: nat,
)
    requires
        k <= actions.len(),
        state_serializable(state),
        apply_all(state, actions) is Some,
        unserializable_after(state, actions),
    ensures
        replay_proof(state, actions, owner_ranges(actions.len() as int, signature), k) == apply_all(
            state,
            actions.take(k as int),
        ),
    decreases k,
{
    let ranges = owner_ranges(actions.len() as int, signature);
    if k == 0 {
        assert(actions.take(0) =~= Seq::<ProofAction<S>>::empty());
    } else {
        lemma_replay_owner(state, actions, signature, (k - 1) as nat);
        lemma_apply_all_prefix(state, actions, k - 1);
        let s = apply_all(state, actions.take(k - 1))->0;
        if k - 1 == 0 {
            assert(actions.take(0) =~= Seq::<ProofAction<S>>::empty());
        } else {
            assert(apply_all(state, actions.take(k - 1)) matches Some(w) ==> !state_serializable(w));
        }
        assert(step_ok(s, k - 1, ranges));
        assert(permitted_at(actions[k - 1], k - 1, ranges));
        assert(actions.take(k as int) =~= actions.take(k - 1).push(actions[k - 1]));
        lemma_apply_all_push(state, actions.take(k - 1), actions[k - 1]);
    }
}

/// A proof made from a well-formed root proof has checkpoints that agree with its actions.
proof fn lemma_new_agrees<S: State>(v: ProofView<S>)
    requires
        v.root.wf(),
        v.actions == v.root.actions,
        v.proofs == seq![
            Some(
                PlayerProofView {
                    state: v.root.state,
                    start: 0,
                    end: v.root.actions.len() as int,
                    signature: v.root.signature,
                },
            ),
            None,
            None,
        ],
        v.state == v.root.latest,
        v.hash == keccak256_spec(proof_bytes(v)),
    ensures
        checkpoints_agree(v),
{
    reveal(checkpoints_agree);
    let root = v.root;
    let n = root.actions.len();
    let pp = v.proofs[0]->0;
    lemma_owner_only(pp);
    let ranges = slot_ranges(v.proofs);
    assert(ranges =~= owner_ranges(n as int, root.signature));
    lemma_replay_owner(root.state, root.actions, root.signature, n);
    assert(root.actions.take(n as int) =~= root.actions);
    if n > 0 {
        assert(apply_all(root.state, root.actions.take(n as int)) matches Some(w)
            ==> !state_serializable(w));
    }
    assert(step_ok(v.state, n as int, ranges));
    lemma_replay_owner(root.state, root.actions, root.signature, 0);
    assert(root.actions.take(0) =~= Seq::<ProofAction<S>>::empty());
    assert(slot_proof(root.state, root.actions, ranges, ranges[0]) == v.proofs[0]);
    assert(root.actions.subrange(0, n as int) =~= root.actions);
    assert(slot_signed(v.proofs[0], 0, v.actions, v.state, root.author));
}


// ---------------------------------------------------------------------------
// Applying keeps the checkpoints in agreement
// ---------------------------------------------------------------------------

/// Actions keep the identifier and the players, and the player every address already acts as.
proof fn lemma_apply_all_keeps<S: State>(
    v: ProofStateView<S>,
    actions: Seq<ProofAction<S>>,
    a: Address,
    owner: Address,
)
    requires
        apply_all(v, actions) is Some,
    ensures
        apply_all(v, actions)->0.id == v.id,
        apply_all(v, actions)->0.players == v.players,
        player_of(v, a, owner) is Some ==> player_of(apply_all(v, actions)->0, a, owner) == player_of(
            v,
            a,
            owner,
        ),
    decreases actions.len(),
{
    if actions.len() > 0 {
        lemma_apply_all_keeps(v, actions.drop_last(), a, owner);
        lemma_apply_keeps(apply_all(v, actions.drop_last())->0, actions.last(), a, owner);
    }
}

/// The state that the first `i` actions reach.
pub open spec fn state_at<S: State>(s: ProofStateView<S>, actions: Seq<ProofAction<S>>, i: int) -> ProofStateView<S> {
    apply_all(s, actions.take(i))->0
}

/// Whether the checks of a replay pass at each of the first `k` positions.
pub open spec fn checks_pass<S: State>(
    s: ProofStateView<S>,
    actions: Seq<ProofAction<S>>,
    ranges: Seq<SlotRange>,
    k: int,
) -> bool {
    forall|i: int|
        0 <= i < k ==> step_ok(#[trigger] state_at(s, actions, i), i, ranges) && permitted_at(
            actions[i],
            i,
            ranges,
        )
}

/// A replay reaches the state the actions reach when its checks pass at every position and the
/// actions apply, and fails otherwise.
proof fn lemma_replay_char<S: State>(
    s: ProofStateView<S>,
    actions: Seq<ProofAction<S>>,
    ranges: Seq<SlotRange>,
    k: nat,
)
    requires
        k <= actions.len(),
    ensures
        replay_proof(s, actions, ranges, k) == if apply_all(s, actions.take(k as int)) is Some
            && checks_pass(s, actions, ranges, k as int) {
            apply_all(s, actions.take(k as int))
        } else {
            None
        },
    decreases k,
{
    if k == 0 {
        assert(actions.take(0) =~= Seq::<ProofAction<S>>::empty());
    } else {
        let j = k - 1;
        lemma_replay_char(s, actions, ranges, j as nat);
        assert(actions.take(k as int) =~= actions.take(j).push(actions[j]));
        lemma_apply_all_push(s, actions.take(j), actions[j]);
        if apply_all(s, actions.take(k as int)) is Some {
            lemma_apply_all_prefix(s, actions.take(k as int), j);
            assert(actions.take(k as int).take(j) =~= actions.take(j));
        }
        if checks_pass(s, actions, ranges, k as int) {
            assert(checks_pass(s, actions, ranges, j));
            assert(step_ok(state_at(s, actions, j), j, ranges));
        } else if checks_pass(s, actions, ranges, j) {
            assert(!(step_ok(state_at(s, actions, j), j, ranges) && permitted_at(
                actions[j],
                j,
                ranges,
            ))) by {
                if step_ok(state_at(s, actions, j), j, ranges) && permitted_at(actions[j], j, ranges) {
                    assert forall|i: int| 0 <= i < k implies step_ok(
                        #[trigger] state_at(s, actions, i),
                        i,
                        ranges,
                    ) && permitted_at(actions[i], i, ranges) by {
                        if i < j {
                            assert(checks_pass(s, actions, ranges, j));
                        }
                    }
                }
            }
        }
    }
}


/// The latest checkpoint ends no earlier than any other.
proof fn lemma_latest_max<S: State>(s: Seq<Option<PlayerProofView<S>>>, j: int)
    requires
        0 <= j < s.len(),
        s[j] is Some,
    ensures
        0 <= latest_index(s) < s.len(),
        s[latest_index(s)] is Some,
        s[j]->0.end <= s[latest_index(s)]->0.end,
    decreases s.len(),
{
    let prev = s.drop_last();
    if j < s.len() - 1 {
        assert(prev[j] == s[j]);
        lemma_latest_max(prev, j);
    } else if latest_index(prev) >= 0 {
        lemma_latest_index_filled(prev);
    }
}

/// The replay of a proof whose checkpoints agree with its actions reaches its latest state, which
/// agrees with the slots.
proof fn lemma_agree_replay<S: State>(v: ProofView<S>)
    requires
        checkpoints_agree(v),
    ensures
        replay_proof(base_state(v), v.actions, slot_ranges(v.proofs), v.actions.len()) == Some(
            v.state,
        ),
        step_ok(v.state, v.actions.len() as int, slot_ranges(v.proofs)),
{
    reveal(checkpoints_agree);
}

/// When the checkpoints agree with the actions, the latest checkpoint ends at the last action.
#[verifier::spinoff_prover]
proof fn lemma_latest_end<S: State>(v: ProofView<S>)
    requires
        v.wf(),
        checkpoints_agree(v),
    ensures
        0 <= latest_index(v.proofs) < 3,
        v.proofs[latest_index(v.proofs)] is Some,
        v.proofs[latest_index(v.proofs)]->0.end == v.actions.len(),
{
    lemma_agree_replay(v);
    lemma_base_index(v.proofs);
    lemma_latest_index(v.proofs);
    lemma_slot_bounds(v);
    let li = latest_index(v.proofs);
    assert(v.proofs[li] == v.proofs[li]);
    let n = v.actions.len();
    if n > 0 {
        let base = v.proofs[base_index(v.proofs)]->0.state;
        let ranges = slot_ranges(v.proofs);
        lemma_replay_char(base, v.actions, ranges, n);
        assert(permitted_at(v.actions[n - 1], n - 1, ranges)) by {
            assert(step_ok(state_at(base, v.actions, n - 1), n - 1, ranges));
        }
        let j: int = if covers(ranges[0], n - 1) {
            0
        } else if covers(ranges[1], n - 1) {
            1
        } else {
            2
        };
        assert(covers(ranges[j], n - 1));
        assert(v.proofs[j] is Some);
        lemma_latest_max(v.proofs, j);
    } else {
        assert(v.proofs[li] == v.proofs[li]);
    }
}


/// The state of the first checkpoint that starts at the first action.
pub open spec fn base_state<S: State>(v: ProofView<S>) -> ProofStateView<S> {
    v.proofs[base_index(v.proofs)]->0.state
}

/// Replaying a proof whose checkpoints agree with its actions: the actions apply from the base
/// state, each prefix reaches a state, the latest checkpoint holds the state where it starts,
/// and no state after it has a binary representation.
#[verifier::spinoff_prover]
#[verifier::rlimit(100)]
proof fn lemma_agree_facts<S: State>(v: ProofView<S>)
    requires
        v.wf(),
        checkpoints_agree(v),
    ensures
        ({
            let base = base_state(v);
            let n = v.actions.len() as int;
            let lp = v.proofs[latest_index(v.proofs)]->0;
            &&& apply_all(base, v.actions) == Some(v.state)
            &&& checks_pass(base, v.actions, slot_ranges(v.proofs), n)
            &&& forall|i: int| 0 <= i <= n ==> (#[trigger] apply_all(base, v.actions.take(i))) is Some
            &&& 0 <= lp.start <= lp.end == n
            &&& state_at(base, v.actions, lp.start) == lp.state
            &&& forall|i: int|
                lp.start < i <= n ==> !state_serializable(#[trigger] state_at(base, v.actions, i))
        }),
{
    reveal(checkpoints_agree);
    let base = base_state(v);
    let n = v.actions.len();
    let ranges = slot_ranges(v.proofs);
    lemma_latest_end(v);
    lemma_slot_bounds(v);
    let li = latest_index(v.proofs);
    let lp = v.proofs[li]->0;
    assert(v.proofs[li] == v.proofs[li]);
    lemma_replay_char(base, v.actions, ranges, n);
    assert(v.actions.take(n as int) =~= v.actions);
    assert forall|i: int| 0 <= i <= n implies (#[trigger] apply_all(base, v.actions.take(i))) is Some by {
        lemma_apply_all_prefix(base, v.actions, i);
    }
    lemma_replay_char(base, v.actions, ranges, lp.start as nat);
    assert(slot_proof(base, v.actions, ranges, ranges[li]) == v.proofs[li]);
    assert(checks_pass(base, v.actions, ranges, lp.start)) by {
        assert forall|i: int| 0 <= i < lp.start implies step_ok(
            #[trigger] state_at(base, v.actions, i),
            i,
            ranges,
        ) && permitted_at(v.actions[i], i, ranges) by {
            assert(checks_pass(base, v.actions, ranges, n as int));
        }
    }
    assert forall|i: int| lp.start < i <= n implies !state_serializable(
        #[trigger] state_at(base, v.actions, i),
    ) by {
        assert(inside(ranges[li], i));
        if i < n {
            assert(step_ok(state_at(base, v.actions, i), i, ranges));
        } else {
            assert(state_at(base, v.actions, i) == v.state);
        }
    }
}


/// What a diff's scan keeps, seen on the proof's actions followed by the diff's from the base
/// state: the latest state is the one they reach, the kept checkpoint state is the one where it
/// starts, and no later state has a binary representation.
#[verifier::rlimit(80)]
proof fn lemma_scan_facts<S: State>(
    v: ProofView<S>,
    acts: Seq<ProofAction<S>>,
    player: Option<Player>,
    k: nat,
)
    requires
        v.wf(),
        checkpoints_agree(v),
        k <= acts.len(),
        scan_diff(v, acts, player, k) is Some,
    ensures
        ({
            let base = base_state(v);
            let all = v.actions + acts;
            let m = (v.actions.len() + k) as int;
            let (latest, state, start) = scan_diff(v, acts, player, k)->0;
            &&& apply_all(base, all.take(m)) == Some(latest)
            &&& forall|i: int| 0 <= i <= m ==> (#[trigger] apply_all(base, all.take(i))) is Some
            &&& 0 <= start <= m
            &&& state_at(base, all, start) == state
            &&& state_serializable(state)
            &&& forall|i: int| start < i <= m ==> !state_serializable(#[trigger] state_at(base, all, i))
        }),
    decreases k,
{
    let base = base_state(v);
    let all = v.actions + acts;
    let n = v.actions.len();
    let m = (n + k) as int;
    if k == 0 {
        lemma_agree_facts(v);
        lemma_latest_end(v);
        lemma_slot_bounds(v);
        let li = latest_index(v.proofs);
        assert(v.proofs[li] == v.proofs[li]);
        assert forall|i: int| 0 <= i <= n implies all.take(i) == v.actions.take(i) by {
            assert(all.take(i) =~= v.actions.take(i));
        }
        assert forall|i: int| 0 <= i <= m implies (#[trigger] apply_all(base, all.take(i))) is Some by {
            assert(all.take(i) == v.actions.take(i));
        }
        assert(v.actions.take(n as int) =~= v.actions);
        let lp = v.proofs[li]->0;
        assert(state_at(base, all, lp.start) == lp.state) by {
            assert(all.take(lp.start) == v.actions.take(lp.start));
        }
        assert forall|i: int| lp.start < i <= m implies !state_serializable(
            #[trigger] state_at(base, all, i),
        ) by {
            assert(all.take(i) == v.actions.take(i));
            assert(state_at(base, all, i) == state_at(base, v.actions, i));
        }
    } else {
        lemma_scan_facts(v, acts, player, (k - 1) as nat);
        let (latest, state, start) = scan_diff(v, acts, player, (k - 1) as nat)->0;
        let j = m - 1;
        assert(all[j] == acts[k - 1]);
        assert(all.take(m) =~= all.take(j).push(all[j]));
        lemma_apply_all_push(base, all.take(j), all[j]);
        assert forall|i: int| 0 <= i <= m implies (#[trigger] apply_all(base, all.take(i))) is Some by {
            if i < m {
                assert(apply_all(base, all.take(i)) is Some);
            }
        }
        let (latest2, state2, start2) = scan_diff(v, acts, player, k)->0;
        assert forall|i: int| start2 < i <= m implies !state_serializable(
            #[trigger] state_at(base, all, i),
        ) by {
            if i < m {
                assert(!state_serializable(state_at(base, all, i)));
            }
        }
    }
}


/// A proof with only the owner's checkpoint agrees with its actions when the actions apply
/// from the checkpoint's state, pass through no state with a binary representation after it,
/// and are signed by the root author with that state.
proof fn lemma_owner_slot_agrees<S: State>(w: ProofView<S>, state: ProofStateView<S>, signature: Seq<u8>)
    requires
        w.proofs == seq![
            Some(
                PlayerProofView {
                    state,
                    start: 0,
                    end: w.actions.len() as int,
                    signature,
                },
            ),
            None,
            None,
        ],
        state_serializable(state),
        apply_all(state, w.actions) == Some(w.state),
        unserializable_after(state, w.actions),
        recover_spec(state_bytes(state) + actions_message(w.actions), signature) == Some(
            w.root.author@,
        ),
        state.id.spec_serialize() == w.root.state.id.spec_serialize(),
        state.players == w.root.state.players,
        w.hash == keccak256_spec(proof_bytes(w)),
    ensures
        checkpoints_agree(w),
{
    reveal(checkpoints_agree);
    let n = w.actions.len();
    let pp = w.proofs[0]->0;
    lemma_owner_only(pp);
    let ranges = slot_ranges(w.proofs);
    assert(ranges =~= owner_ranges(n as int, signature));
    lemma_replay_owner(state, w.actions, signature, n);
    assert(w.actions.take(n as int) =~= w.actions);
    if n > 0 {
        assert(apply_all(state, w.actions.take(n as int)) matches Some(x) ==> !state_serializable(x));
    }
    assert(step_ok(w.state, n as int, ranges));
    lemma_replay_owner(state, w.actions, signature, 0);
    assert(w.actions.take(0) =~= Seq::<ProofAction<S>>::empty());
    assert(slot_proof(state, w.actions, ranges, ranges[0]) == w.proofs[0]);
    assert(w.actions.subrange(0, n as int) =~= w.actions);
    assert(slot_signed(w.proofs[0], 0, w.actions, w.state, w.root.author));
}

/// Applying a diff by the root author to a proof whose checkpoints agree with its actions gives
/// a proof whose checkpoints agree with its actions.
#[verifier::spinoff_prover]
#[verifier::rlimit(100)]
proof fn lemma_owner_diff_agrees<S: State>(v: ProofView<S>, d: DiffView<S>)
    requires
        v.wf(),
        checkpoints_agree(v),
        diff_player(v, d) == Some(None::<Player>),
        apply_diff(v, d) is Ok,
    ensures
        checkpoints_agree(apply_diff(v, d)->Ok_0),
{
    reveal(finish_owner);
    let k = d.actions.len();
    let n = v.actions.len();
    let all = v.actions + d.actions;
    let base = base_state(v);
    lemma_scan_facts(v, d.actions, None, k);
    let (latest, state, start) = scan_diff(v, d.actions, None, k)->0;
    let kept = all.skip(start);
    let w = apply_diff(v, d)->Ok_0;
    assert(w.actions == kept);
    assert(w.state == latest);
    assert(all.take((n + k) as int) =~= all);
    assert(all.take(start) + kept =~= all);
    lemma_apply_all_append(base, all.take(start), kept);
    assert forall|j: int| 1 <= j <= kept.len() implies ((#[trigger] apply_all(state, kept.take(j)))
        matches Some(x) ==> !state_serializable(x)) by {
        assert(all.take(start) + kept.take(j) =~= all.take(start + j));
        lemma_apply_all_append(base, all.take(start), kept.take(j));
        assert(!state_serializable(state_at(base, all, start + j)));
    }
    lemma_apply_all_keeps(base, all.take(start), v.root.author, v.root.author);
    lemma_agree_base(v);
    lemma_owner_slot_agrees(w, state, d.proof_signature);
}

/// The base state of a proof whose checkpoints agree with its actions has the root proof's
/// identifier and players.
proof fn lemma_agree_base<S: State>(v: ProofView<S>)
    requires
        checkpoints_agree(v),
    ensures
        base_state(v).id.spec_serialize() == v.root.state.id.spec_serialize(),
        base_state(v).players == v.root.state.players,
        v.hash == keccak256_spec(proof_bytes(v)),
{
    reveal(checkpoints_agree);
}


/// The checkpoints a player's diff keeps, before they are moved to the kept actions.
pub open spec fn pruned_slots<S: State>(v: ProofView<S>, d: DiffView<S>, p: Player) -> Seq<
    Option<PlayerProofView<S>>,
> {
    let (latest, state, start) = scan_diff(v, d.actions, Some(p), d.actions.len())->0;
    kept_slots(v, d, p, state, start)
}

/// Every checkpoint of a proof whose checkpoints agree with its actions holds the state where
/// it starts.
proof fn lemma_old_slot_state<S: State>(v: ProofView<S>, j: int)
    requires
        v.wf(),
        checkpoints_agree(v),
        0 <= j < 3,
    ensures
        v.proofs[j] matches Some(q) ==> {
            &&& q.state == state_at(base_state(v), v.actions, q.start)
            &&& 0 <= q.start <= q.end <= v.actions.len()
            &&& state_serializable(q.state)
        },
{
    reveal(checkpoints_agree);
    if let Some(q) = v.proofs[j] {
        let n = v.actions.len();
        let base = base_state(v);
        lemma_slot_bounds(v);
        assert(v.proofs[j] == v.proofs[j]);
        let ranges = slot_ranges(v.proofs);
        lemma_agree_facts(v);
        assert(slot_proof(base, v.actions, ranges, ranges[j]) == v.proofs[j]);
        lemma_replay_char(base, v.actions, ranges, q.start as nat);
        assert(checks_pass(base, v.actions, ranges, q.start)) by {
            assert forall|i: int| 0 <= i < q.start implies step_ok(
                #[trigger] state_at(base, v.actions, i),
                i,
                ranges,
            ) && permitted_at(v.actions[i], i, ranges) by {
                assert(checks_pass(base, v.actions, ranges, n as int));
            }
        }
    }
}

/// The checkpoints a player's diff keeps: the player's new one, and the others as they were
/// unless the owner's is dropped.
proof fn lemma_pruned_shape<S: State>(v: ProofView<S>, d: DiffView<S>, p: Player, j: int)
    requires
        v.proofs.len() == 3,
        p < 2,
        0 <= j < 3,
    ensures
        j != 1 + p ==> (pruned_slots(v, d, p)[j] is None || pruned_slots(v, d, p)[j] == v.proofs[j]),
        j == 1 + p ==> pruned_slots(v, d, p)[j] == Some(
            PlayerProofView {
                state: (scan_diff(v, d.actions, Some(p), d.actions.len())->0).1,
                start: (scan_diff(v, d.actions, Some(p), d.actions.len())->0).2,
                end: (v.actions.len() + d.actions.len()) as int,
                signature: d.proof_signature,
            },
        ),
{
}

/// Every checkpoint a player's diff keeps holds the state where it starts, on the proof's
/// actions followed by the diff's from the base state, and lies within them.
proof fn lemma_pruned_states<S: State>(v: ProofView<S>, d: DiffView<S>, p: Player, j: int)
    requires
        v.wf(),
        checkpoints_agree(v),
        p < 2,
        0 <= j < 3,
        scan_diff(v, d.actions, Some(p), d.actions.len()) is Some,
    ensures
        pruned_slots(v, d, p)[j] matches Some(q) ==> {
            &&& q.state == state_at(base_state(v), v.actions + d.actions, q.start)
            &&& 0 <= q.start <= q.end <= v.actions.len() + d.actions.len()
            &&& state_serializable(q.state)
        },
{
    let k = d.actions.len();
    let all = v.actions + d.actions;
    lemma_pruned_shape(v, d, p, j);
    if j == 1 + p {
        lemma_scan_facts(v, d.actions, Some(p), k);
    } else if let Some(q) = pruned_slots(v, d, p)[j] {
        lemma_old_slot_state(v, j);
        assert(all.take(q.start) =~= v.actions.take(q.start));
    }
}


/// The checks of a replay pass, for the checkpoints a player's diff keeps, at every position of
/// the proof's actions followed by the diff's from where the kept actions begin, when the diff's
/// actions are all the player's.
#[verifier::spinoff_prover]
#[verifier::rlimit(100)]
proof fn lemma_pruned_checks<S: State>(v: ProofView<S>, d: DiffView<S>, p: Player, g: int)
    requires
        v.wf(),
        checkpoints_agree(v),
        p < 2,
        scan_diff(v, d.actions, Some(p), d.actions.len()) is Some,
        forall|i: int| 0 <= i < d.actions.len() ==> (#[trigger] d.actions[i]).player == Some(p),
        player_offset(v.proofs, p, (scan_diff(v, d.actions, Some(p), d.actions.len())->0).2) <= g
            <= v.actions.len() + d.actions.len(),
    ensures
        step_ok(
            state_at(base_state(v), v.actions + d.actions, g),
            g,
            slot_ranges(pruned_slots(v, d, p)),
        ),
        g < v.actions.len() + d.actions.len() ==> permitted_at(
            (v.actions + d.actions)[g],
            g,
            slot_ranges(pruned_slots(v, d, p)),
        ),
{
    reveal(checkpoints_agree);
    let k = d.actions.len();
    let n = v.actions.len();
    let all = v.actions + d.actions;
    let base = base_state(v);
    let pr = pruned_slots(v, d, p);
    let prr = slot_ranges(pr);
    let ranges = slot_ranges(v.proofs);
    lemma_scan_facts(v, d.actions, Some(p), k);
    let (latest, state, start) = scan_diff(v, d.actions, Some(p), k)->0;
    let offset = player_offset(v.proofs, p, start);
    lemma_agree_facts(v);
    lemma_pruned_shape(v, d, p, 0);
    lemma_pruned_shape(v, d, p, 1);
    lemma_pruned_shape(v, d, p, 2);
    lemma_pruned_states(v, d, p, 0);
    lemma_pruned_states(v, d, p, 1);
    lemma_pruned_states(v, d, p, 2);
    lemma_old_slot_state(v, 0);
    lemma_old_slot_state(v, 1);
    lemma_old_slot_state(v, 2);
    let sg = state_at(base, all, g);
    if g <= n {
        assert(all.take(g) =~= v.actions.take(g));
        assert(sg == state_at(base, v.actions, g));
        if g < n {
            assert(step_ok(state_at(base, v.actions, g), g, ranges));
            assert(permitted_at(v.actions[g], g, ranges));
            assert(all[g] == v.actions[g]);
        } else {
            assert(v.actions.take(n as int) =~= v.actions);
            assert(step_ok(v.state, n as int, ranges));
        }
    } else {
        assert(all[g - 1] == d.actions[g - 1 - n]);
        if g < n + k {
            assert(all[g] == d.actions[g - n]);
        }
    }
    assert(starts_at(prr[0], g) ==> state_serializable(sg));
    assert(starts_at(prr[1], g) ==> state_serializable(sg));
    assert(starts_at(prr[2], g) ==> state_serializable(sg));
    assert(inside(prr[1 + p], g) ==> !state_serializable(sg));
}


/// Moving a checkpoint earlier moves where it starts, what lies inside it and what it covers.
proof fn lemma_shift_range<S: State>(q: Option<PlayerProofView<S>>, off: int, i: int)
    ensures
        starts_at(range_of(shift_slot(q, off)), i) == starts_at(range_of(q), i + off),
        inside(range_of(shift_slot(q, off)), i) == inside(range_of(q), i + off),
        covers(range_of(shift_slot(q, off)), i) == covers(range_of(q), i + off),
{
}

/// Where the actions that a player's diff keeps begin.
pub open spec fn diff_offset<S: State>(v: ProofView<S>, d: DiffView<S>, p: Player) -> int {
    player_offset(v.proofs, p, (scan_diff(v, d.actions, Some(p), d.actions.len())->0).2)
}

/// The checkpoints a player's diff keeps, moved to the kept actions.
pub open spec fn shifted_slots<S: State>(v: ProofView<S>, d: DiffView<S>, p: Player) -> Seq<
    Option<PlayerProofView<S>>,
> {
    pruned_slots(v, d, p).map_values(
        |q: Option<PlayerProofView<S>>| shift_slot(q, diff_offset(v, d, p)),
    )
}

/// The requirements on a player's diff under which the kept checkpoints agree with the kept
/// actions: a proof whose checkpoints agree with its actions, a scan that succeeds, actions all
/// the player's, and no kept checkpoint starting before the kept actions.
pub open spec fn player_diff_ok<S: State>(v: ProofView<S>, d: DiffView<S>, p: Player) -> bool {
    &&& v.wf()
    &&& checkpoints_agree(v)
    &&& p < 2
    &&& scan_diff(v, d.actions, Some(p), d.actions.len()) is Some
    &&& forall|i: int| 0 <= i < d.actions.len() ==> (#[trigger] d.actions[i]).player == Some(p)
    &&& forall|i: int|
        0 <= i < 3 ==> !starts_before(#[trigger] pruned_slots(v, d, p)[i], diff_offset(v, d, p))
}

/// The states the kept actions reach from where they begin are those the proof's actions
/// followed by the diff's reach from the base state.
#[verifier::spinoff_prover]
proof fn lemma_kept_prefix<S: State>(v: ProofView<S>, d: DiffView<S>, p: Player)
    requires
        player_diff_ok(v, d, p),
    ensures
        ({
            let all = v.actions + d.actions;
            let off = diff_offset(v, d, p);
            let kept = all.skip(off);
            let sb = state_at(base_state(v), all, off);
            &&& 0 <= off <= all.len()
            &&& apply_all(base_state(v), all.take(off)) == Some(sb)
            &&& apply_all(base_state(v), all) == Some((scan_diff(v, d.actions, Some(p), d.actions.len())->0).0)
            &&& forall|i: int|
                0 <= i <= kept.len() ==> apply_all(sb, #[trigger] kept.take(i)) == apply_all(
                    base_state(v),
                    all.take(off + i),
                )
        }),
{
    let k = d.actions.len();
    let n = v.actions.len();
    let all = v.actions + d.actions;
    let base = base_state(v);
    lemma_scan_facts(v, d.actions, Some(p), k);
    let (latest, state, start) = scan_diff(v, d.actions, Some(p), k)->0;
    let off = diff_offset(v, d, p);
    lemma_offset_bounds(v, p, start);
    let kept = all.skip(off);
    let sb = state_at(base, all, off);
    assert(all.take((n + k) as int) =~= all);
    assert(apply_all(base, all.take(off)) is Some);
    assert forall|i: int| 0 <= i <= kept.len() implies apply_all(sb, #[trigger] kept.take(i))
        == apply_all(base, all.take(off + i)) by {
        assert(all.take(off) + kept.take(i) =~= all.take(off + i));
        lemma_apply_all_append(base, all.take(off), kept.take(i));
    }
}

/// The checks of a replay of the kept actions, under the kept checkpoints, pass at position `i`.
#[verifier::spinoff_prover]
#[verifier::rlimit(100)]
proof fn lemma_kept_check_at<S: State>(v: ProofView<S>, d: DiffView<S>, p: Player, i: int)
    requires
        player_diff_ok(v, d, p),
        0 <= i <= (v.actions + d.actions).skip(diff_offset(v, d, p)).len(),
    ensures
        ({
            let all = v.actions + d.actions;
            let off = diff_offset(v, d, p);
            let kept = all.skip(off);
            let sb = state_at(base_state(v), all, off);
            let wr = slot_ranges(shifted_slots(v, d, p));
            &&& step_ok(state_at(sb, kept, i), i, wr)
            &&& i < kept.len() ==> permitted_at(kept[i], i, wr)
        }),
{
    let all = v.actions + d.actions;
    let base = base_state(v);
    lemma_kept_prefix(v, d, p);
    let off = diff_offset(v, d, p);
    let kept = all.skip(off);
    let sb = state_at(base, all, off);
    let pr = pruned_slots(v, d, p);
    let sh = shifted_slots(v, d, p);
    let wr = slot_ranges(sh);
    assert(wr[0] == range_of(shift_slot(pr[0], off)));
    assert(wr[1] == range_of(shift_slot(pr[1], off)));
    assert(wr[2] == range_of(shift_slot(pr[2], off)));
    assert(apply_all(sb, kept.take(i)) == apply_all(base, all.take(off + i)));
    lemma_pruned_checks(v, d, p, off + i);
    lemma_shift_range(pr[0], off, i);
    lemma_shift_range(pr[1], off, i);
    lemma_shift_range(pr[2], off, i);
    if i < kept.len() {
        assert(kept[i] == all[off + i]);
    }
}

/// The checks of a replay of the kept actions, under the kept checkpoints, pass at every
/// position and at the end.
#[verifier::spinoff_prover]
proof fn lemma_kept_checks<S: State>(v: ProofView<S>, d: DiffView<S>, p: Player)
    requires
        player_diff_ok(v, d, p),
    ensures
        ({
            let all = v.actions + d.actions;
            let off = diff_offset(v, d, p);
            let kept = all.skip(off);
            let sb = state_at(base_state(v), all, off);
            let wr = slot_ranges(shifted_slots(v, d, p));
            let latest = (scan_diff(v, d.actions, Some(p), d.actions.len())->0).0;
            &&& checks_pass(sb, kept, wr, kept.len() as int)
            &&& step_ok(latest, kept.len() as int, wr)
        }),
{
    let all = v.actions + d.actions;
    let base = base_state(v);
    lemma_kept_prefix(v, d, p);
    let off = diff_offset(v, d, p);
    let kept = all.skip(off);
    let mm = kept.len();
    let sb = state_at(base, all, off);
    let wr = slot_ranges(shifted_slots(v, d, p));
    assert forall|i: int| 0 <= i < mm implies step_ok(#[trigger] state_at(sb, kept, i), i, wr)
        && permitted_at(kept[i], i, wr) by {
        lemma_kept_check_at(v, d, p, i);
    }
    lemma_kept_check_at(v, d, p, mm as int);
    assert(kept.take(mm as int) =~= kept);
    assert(apply_all(sb, kept.take(mm as int)) == apply_all(base, all.take(off + mm)));
    assert(all.take(off + mm) =~= all);
}

/// Replaying the actions a player's diff keeps, from the state where they begin, under the
/// checkpoints it keeps: the replay reaches the latest state, and each kept checkpoint holds
/// the replayed state where it starts.
#[verifier::spinoff_prover]
#[verifier::rlimit(100)]
proof fn lemma_pruned_replay<S: State>(v: ProofView<S>, d: DiffView<S>, p: Player, j: int)
    requires
        player_diff_ok(v, d, p),
        0 <= j < 3,
    ensures
        ({
            let all = v.actions + d.actions;
            let off = diff_offset(v, d, p);
            let kept = all.skip(off);
            let sb = state_at(base_state(v), all, off);
            let wr = slot_ranges(shifted_slots(v, d, p));
            let latest = (scan_diff(v, d.actions, Some(p), d.actions.len())->0).0;
            &&& replay_proof(sb, kept, wr, kept.len()) == Some(latest)
            &&& step_ok(latest, kept.len() as int, wr)
            &&& slot_proof(sb, kept, wr, wr[j]) == shifted_slots(v, d, p)[j]
        }),
{
    let k = d.actions.len();
    let all = v.actions + d.actions;
    let base = base_state(v);
    lemma_kept_prefix(v, d, p);
    lemma_kept_checks(v, d, p);
    let off = diff_offset(v, d, p);
    let kept = all.skip(off);
    let mm = kept.len();
    let sb = state_at(base, all, off);
    let pr = pruned_slots(v, d, p);
    let sh = shifted_slots(v, d, p);
    let wr = slot_ranges(sh);
    lemma_replay_char(sb, kept, wr, mm);
    assert(kept.take(mm as int) =~= kept);
    assert(apply_all(sb, kept.take(mm as int)) == apply_all(base, all.take(off + mm)));
    assert(all.take(off + mm) =~= all);
    lemma_pruned_states(v, d, p, j);
    assert(wr[j] == range_of(shift_slot(pr[j], off)));
    assert(sh[j] == shift_slot(pr[j], off));
    if let Some(q) = pr[j] {
        let s0 = q.start - off;
        assert(!starts_before(pr[j], off));
        lemma_replay_char(sb, kept, wr, s0 as nat);
        assert(checks_pass(sb, kept, wr, s0)) by {
            assert forall|i: int| 0 <= i < s0 implies step_ok(
                #[trigger] state_at(sb, kept, i),
                i,
                wr,
            ) && permitted_at(kept[i], i, wr) by {
                assert(checks_pass(sb, kept, wr, mm as int));
            }
        }
        assert(apply_all(sb, kept.take(s0)) == apply_all(base, all.take(q.start)));
        lemma_apply_all_prefix(base, all, q.start);
    }
}


/// The slots of a proof whose checkpoints agree with its actions are signed as they require.
proof fn lemma_agree_signed<S: State>(v: ProofView<S>, j: int)
    requires
        checkpoints_agree(v),
        0 <= j < 3,
    ensures
        slot_signed(v.proofs[j], j, v.actions, v.state, v.root.author),
{
    reveal(checkpoints_agree);
}

/// The checkpoints a player's diff keeps, moved to the kept actions, are signed as their slots
/// require, with the latest state after the diff.
#[verifier::spinoff_prover]
#[verifier::rlimit(60)]
proof fn lemma_kept_signed<S: State>(v: ProofView<S>, d: DiffView<S>, p: Player, j: int)
    requires
        player_diff_ok(v, d, p),
        diff_player(v, d) == Some(Some(p)),
        apply_diff(v, d) is Ok,
        0 <= j < 3,
    ensures
        slot_signed(
            shifted_slots(v, d, p)[j],
            j,
            (v.actions + d.actions).skip(diff_offset(v, d, p)),
            (scan_diff(v, d.actions, Some(p), d.actions.len())->0).0,
            v.root.author,
        ),
{
    reveal(finish_player);
    let k = d.actions.len();
    let n = v.actions.len();
    let all = v.actions + d.actions;
    let (latest, state, start) = scan_diff(v, d.actions, Some(p), k)->0;
    let off = diff_offset(v, d, p);
    let kept = all.skip(off);
    let pr = pruned_slots(v, d, p);
    let sh = shifted_slots(v, d, p);
    assert(sh[j] == shift_slot(pr[j], off));
    lemma_pruned_shape(v, d, p, j);
    lemma_pruned_states(v, d, p, j);
    lemma_scan_facts(v, d.actions, Some(p), k);
    lemma_offset_bounds(v, p, start);
    if j == 1 + p {
        assert(apply_diff(v, d) == finish_player(v, d, p, latest, state, start));
        assert(kept.subrange(start - off, (n + k) - off) =~= all.skip(start));
    } else if let Some(q) = pr[j] {
        assert(!starts_before(pr[j], off));
        lemma_old_slot_state(v, j);
        lemma_agree_signed(v, j);
        assert(kept.subrange(q.start - off, q.end - off) =~= v.actions.subrange(q.start, q.end));
        lemma_scan_diff_state(v, d.actions, Some(p), k);
        assert(d.actions.take(k as int) =~= d.actions);
        match recover_spec(
            state_bytes(q.state) + actions_message(v.actions.subrange(q.start, q.end)),
            q.signature,
        ) {
            Some(author) => {
                lemma_apply_all_keeps(v.state, d.actions, array20(author), v.root.author);
            },
            None => {},
        }
    }
}

/// Applying a player's diff to a proof whose checkpoints agree with its actions gives a proof
/// whose checkpoints agree with its actions, when the diff's actions are all the player's.
#[verifier::spinoff_prover]
#[verifier::rlimit(60)]
proof fn lemma_player_diff_agrees<S: State>(v: ProofView<S>, d: DiffView<S>, p: Player)
    requires
        player_diff_ok(v, d, p),
        diff_player(v, d) == Some(Some(p)),
        apply_diff(v, d) is Ok,
        apply_diff(v, d)->Ok_0.wf(),
    ensures
        checkpoints_agree(apply_diff(v, d)->Ok_0),
{
    reveal(finish_player);
    let k = d.actions.len();
    let all = v.actions + d.actions;
    let base = base_state(v);
    let (latest, state, start) = scan_diff(v, d.actions, Some(p), k)->0;
    let off = diff_offset(v, d, p);
    let kept = all.skip(off);
    let sb = state_at(base, all, off);
    let sh = shifted_slots(v, d, p);
    let pr = pruned_slots(v, d, p);
    let w = apply_diff(v, d)->Ok_0;
    assert(apply_diff(v, d) == finish_player(v, d, p, latest, state, start));
    assert(w.proofs =~= sh);
    assert(w.actions == kept);
    assert(w.state == latest);
    lemma_kept_prefix(v, d, p);
    lemma_pruned_replay(v, d, p, 0);
    lemma_pruned_replay(v, d, p, 1);
    lemma_pruned_replay(v, d, p, 2);
    lemma_kept_signed(v, d, p, 0);
    lemma_kept_signed(v, d, p, 1);
    lemma_kept_signed(v, d, p, 2);
    lemma_base_index(w.proofs);
    let bi = base_index(w.proofs);
    assert(sh[bi] == shift_slot(pr[bi], off));
    lemma_pruned_states(v, d, p, bi);
    assert(base_state(w) == sb);
    lemma_agree_base(v);
    lemma_apply_all_keeps(base, all.take(off), v.root.author, v.root.author);
    reveal(checkpoints_agree);
}


/// Whether a player's diff holds only actions performed by that player (the root author's
/// diffs may hold anybody's).
pub open spec fn performed_by_author<S: State>(v: ProofView<S>, d: DiffView<S>) -> bool {
    diff_player(v, d) matches Some(Some(p)) ==> forall|i: int|
        0 <= i < d.actions.len() ==> (#[trigger] d.actions[i]).player == Some(p)
}

/// Applying a diff keeps the checkpoints of a proof in agreement with its actions, when a
/// player's diff holds only that player's actions.
proof fn lemma_apply_agrees<S: State>(v: ProofView<S>, d: DiffView<S>)
    requires
        v.wf(),
        checkpoints_agree(v),
        performed_by_author(v, d),
        apply_diff(v, d) is Ok,
        apply_diff(v, d)->Ok_0.wf(),
    ensures
        checkpoints_agree(apply_diff(v, d)->Ok_0),
{
    match diff_player(v, d)->0 {
        None => {
            lemma_owner_diff_agrees(v, d);
        },
        Some(p) => {
            reveal(finish_player);
            assert(p < 2) by {
                reveal(player_of);
            }
            let k = d.actions.len();
            let (latest, state, start) = scan_diff(v, d.actions, Some(p), k)->0;
            assert(apply_diff(v, d) == finish_player(v, d, p, latest, state, start));
            let offset = player_offset(v.proofs, p, start);
            let slot = PlayerProofView {
                state,
                start,
                end: (v.actions + d.actions).len() as int,
                signature: d.proof_signature,
            };
            assert(pruned_slots(v, d, p) == player_slots(v.proofs, p, slot, offset));
            assert(player_diff_ok(v, d, p));
            lemma_player_diff_agrees(v, d, p);
        },
    }
}

} // verus!
