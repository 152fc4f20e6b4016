//! Consensus state: the domain-specific state with its identifier, nonce, players, certified
//! subkeys and approved subkeys.
use vstd::prelude::*;
use vstd::utf8::encode_utf8;
use crate::action::{PlayerAction, ProofAction};
use crate::crypto::{recover, recover_spec, Address, Signature};
use crate::traits::{approval_text, challenge_text, Action, Nonce, Player, State, ID};
use crate::utils::{
    chunks, concat_all, copy20, copy65, framed, le_u32_bytes, le_u32_value, lemma_concat_all_push,
    lemma_concat_uniform, lemma_le_u32_roundtrip, read_u32_usize, write_u32_usize,
};

verus! {

// ---------------------------------------------------------------------------
// Addresses, ordered
// ---------------------------------------------------------------------------

/// Lexicographic order on byte strings.
pub open spec fn bytes_lt(a: Seq<u8>, b: Seq<u8>) -> bool
    decreases a.len(),
{
    if a.len() == 0 || b.len() == 0 {
        a.len() < b.len()
    } else if a[0] != b[0] {
        a[0] < b[0]
    } else {
        bytes_lt(a.drop_first(), b.drop_first())
    }
}

/// Of two byte strings of one length, exactly one of `a < b`, `a == b`, `b < a` holds.
pub proof fn lemma_bytes_trichotomy(a: Seq<u8>, b: Seq<u8>)
    requires
        a.len() == b.len(),
    ensures
        bytes_lt(a, b) || a == b || bytes_lt(b, a),
        !(bytes_lt(a, b) && bytes_lt(b, a)),
        !(bytes_lt(a, b) && a == b),
    decreases a.len(),
{
    if a.len() > 0 && a[0] == b[0] {
        lemma_bytes_trichotomy(a.drop_first(), b.drop_first());
        if a.drop_first() == b.drop_first() {
            assert(a =~= seq![a[0]] + a.drop_first());
            assert(b =~= seq![b[0]] + b.drop_first());
        }
    }
    if a.len() == 0 {
        assert(a =~= b);
    }
}

/// The array of twenty bytes with the given contents.
pub open spec fn array20(s: Seq<u8>) -> Address {
    choose|a: Address| a@ == s
}

/// The array of sixty-five bytes with the given contents.
pub open spec fn array65(s: Seq<u8>) -> Signature {
    choose|a: Signature| a@ == s
}

pub proof fn lemma_array20(a: Address)
    ensures
        array20(a@) == a,
{
    let b = array20(a@);
    assert(b@ =~= a@);
}

pub proof fn lemma_array65(a: Signature)
    ensures
        array65(a@) == a,
{
    let b = array65(a@);
    assert(b@ =~= a@);
}

/// Whether `a` sorts before `b`.
pub(crate) fn address_lt(a: &Address, b: &Address) -> (r: bool)
    ensures
        r == bytes_lt(a@, b@),
{
    assert(a@.skip(0) =~= a@ && b@.skip(0) =~= b@);
    let mut i: usize = 0;
    while i < 20
        invariant
            i <= 20,
            forall|j: int| 0 <= j < i ==> a@[j] == b@[j],
            bytes_lt(a@, b@) == bytes_lt(a@.skip(i as int), b@.skip(i as int)),
        decreases 20 - i,
    {
        if a[i] != b[i] {
            return a[i] < b[i];
        }
        proof {
            assert(a@.skip(i as int).drop_first() =~= a@.skip(i + 1));
            assert(b@.skip(i as int).drop_first() =~= b@.skip(i + 1));
        }
        i = i + 1;
    }
    false
}

/// Whether two addresses are equal.
pub(crate) fn address_eq(a: &Address, b: &Address) -> (r: bool)
    ensures
        r == (a == b),
{
    let mut i: usize = 0;
    while i < 20
        invariant
            i <= 20,
            forall|j: int| 0 <= j < i ==> a@[j] == b@[j],
        decreases 20 - i,
    {
        if a[i] != b[i] {
            assert(a@[i as int] != b@[i as int]);
            return false;
        }
        i = i + 1;
    }
    proof {
        assert(a@ =~= b@);
        lemma_array20(*a);
        lemma_array20(*b);
    }
    true
}


/// Whether two byte strings are equal.
pub(crate) fn slices_equal(a: &[u8], b: &[u8]) -> (r: bool)
    ensures
        r == (a@ == b@),
{
    if a.len() != b.len() {
        return false;
    }
    let mut i: usize = 0;
    while i < a.len()
        invariant
            i <= a@.len(),
            a@.len() == b@.len(),
            forall|j: int| 0 <= j < i ==> a@[j] == b@[j],
        decreases a@.len() - i,
    {
        if a[i] != b[i] {
            return false;
        }
        i = i + 1;
    }
    assert(a@ =~= b@);
    true
}

// ---------------------------------------------------------------------------
// Address-keyed tables, sorted by key
// ---------------------------------------------------------------------------

/// The value stored under `key`, if any.
pub open spec fn lookup<V>(entries: Seq<(Address, V)>, key: Address) -> Option<V>
    decreases entries.len(),
{
    if entries.len() == 0 {
        None
    } else if entries[0].0 == key {
        Some(entries[0].1)
    } else {
        lookup(entries.drop_first(), key)
    }
}

/// The key at position `i` sorts strictly before the next.
pub open spec fn sorted_at<V>(entries: Seq<(Address, V)>, i: int) -> bool {
    bytes_lt(entries[i].0@, entries[i + 1].0@)
}

/// Each key sorts strictly before the next.
pub open spec fn keys_sorted<V>(entries: Seq<(Address, V)>) -> bool {
    forall|i: int| 0 <= i < entries.len() - 1 ==> #[trigger] sorted_at(entries, i)
}

/// The position at which `key` is inserted: before the first key it sorts before.
pub open spec fn insert_position<V>(entries: Seq<(Address, V)>, key: Address) -> nat
    decreases entries.len(),
{
    if entries.len() == 0 {
        0
    } else if bytes_lt(key@, entries[0].0@) {
        0
    } else {
        1 + insert_position(entries.drop_first(), key)
    }
}

/// The table with `value` stored under `key`, which it does not hold.
pub open spec fn insert_sorted<V>(entries: Seq<(Address, V)>, key: Address, value: V) -> Seq<
    (Address, V),
> {
    entries.insert(insert_position(entries, key) as int, (key, value))
}

proof fn lemma_insert_position<V>(entries: Seq<(Address, V)>, key: Address)
    ensures
        insert_position(entries, key) <= entries.len(),
        forall|j: int|
            0 <= j < insert_position(entries, key) ==> !bytes_lt(key@, #[trigger] entries[j].0@),
        insert_position(entries, key) < entries.len() ==> bytes_lt(
            key@,
            entries[insert_position(entries, key) as int].0@,
        ),
    decreases entries.len(),
{
    if entries.len() > 0 && !bytes_lt(key@, entries[0].0@) {
        let rest = entries.drop_first();
        lemma_insert_position(rest, key);
        assert forall|j: int|
            0 <= j < insert_position(entries, key) implies !bytes_lt(
            key@,
            #[trigger] entries[j].0@,
        ) by {
            if j > 0 {
                assert(entries[j] == rest[j - 1]);
            }
        }
    }
}

proof fn lemma_lookup_none<V>(entries: Seq<(Address, V)>, key: Address)
    requires
        lookup(entries, key) is None,
    ensures
        forall|j: int| 0 <= j < entries.len() ==> (#[trigger] entries[j]).0 != key,
    decreases entries.len(),
{
    if entries.len() > 0 {
        lemma_lookup_none(entries.drop_first(), key);
        assert forall|j: int| 0 <= j < entries.len() implies (#[trigger] entries[j]).0 != key by {
            if j > 0 {
                assert(entries[j] == entries.drop_first()[j - 1]);
            }
        }
    }
}

/// Inserting a key the table does not hold keeps it sorted.
proof fn lemma_insert_sorted<V>(entries: Seq<(Address, V)>, key: Address, value: V)
    requires
        keys_sorted(entries),
        lookup(entries, key) is None,
    ensures
        keys_sorted(insert_sorted(entries, key, value)),
        insert_sorted(entries, key, value).len() == entries.len() + 1,
        insert_position(entries, key) <= entries.len(),
{
    lemma_insert_position(entries, key);
    lemma_lookup_none(entries, key);
    let pos = insert_position(entries, key) as int;
    let out = insert_sorted(entries, key, value);
    assert forall|i: int| 0 <= i < out.len() - 1 implies #[trigger] sorted_at(out, i) by {
        if i + 1 < pos {
            assert(out[i] == entries[i] && out[i + 1] == entries[i + 1]);
            assert(sorted_at(entries, i));
        } else if i + 1 == pos {
            assert(out[i] == entries[i]);
            lemma_bytes_trichotomy(key@, entries[i].0@);
            if entries[i].0@ == key@ {
                lemma_array20(key);
                lemma_array20(entries[i].0);
            }
        } else if i == pos {
            assert(out[i + 1] == entries[i]);
        } else {
            assert(out[i] == entries[i - 1] && out[i + 1] == entries[i]);
            assert(sorted_at(entries, i - 1));
        }
    }
}

/// The first position holding `key`, scanning from the front, or `None`.
fn find_key<V>(entries: &Vec<(Address, V)>, key: &Address) -> (r: Option<usize>)
    ensures
        match r {
            Some(i) => i < entries@.len() && entries@[i as int].0 == *key && lookup(entries@, *key)
                == Some(entries@[i as int].1),
            None => lookup(entries@, *key) is None,
        },
{
    assert(entries@.skip(0) =~= entries@);
    let mut i: usize = 0;
    while i < entries.len()
        invariant
            i <= entries@.len(),
            lookup(entries@, *key) == lookup(entries@.skip(i as int), *key),
        decreases entries@.len() - i,
    {
        proof {
            assert(entries@.skip(i as int).drop_first() =~= entries@.skip(i + 1));
        }
        if address_eq(&entries[i].0, key) {
            return Some(i);
        }
        i = i + 1;
    }
    None
}

/// The position at which `key` is inserted.
fn find_insert_position<V>(entries: &Vec<(Address, V)>, key: &Address) -> (r: usize)
    ensures
        r as nat == insert_position(entries@, *key),
{
    assert(entries@.skip(0) =~= entries@);
    let mut i: usize = 0;
    while i < entries.len()
        invariant
            i <= entries@.len(),
            insert_position(entries@, *key) == i + insert_position(
                entries@.skip(i as int),
                *key,
            ),
            forall|j: int| 0 <= j < i ==> !bytes_lt(key@, #[trigger] entries@[j].0@),
        decreases entries@.len() - i,
    {
        proof {
            assert(entries@.skip(i as int).drop_first() =~= entries@.skip(i + 1));
            lemma_insert_position(entries@, *key);
        }
        if address_lt(key, &entries[i].0) {
            return i;
        }
        i = i + 1;
    }
    proof {
        lemma_insert_position(entries@, *key);
    }
    i
}


// ---------------------------------------------------------------------------
// Consensus state
// ---------------------------------------------------------------------------

/// Consensus state
pub struct ProofState<S: State> {
    id: S::ID,
    nonce: S::Nonce,
    players: [Address; 2],
    signatures: Vec<(Address, Signature)>,
    approvals: Vec<(Address, (Address, Signature))>,
    state: S,
}

/// The model of a consensus state: its identifier, nonce, players, the certified subkeys with
/// the signatures of their challenges, the approved subkeys with their players and the owner's
/// signatures, and the domain-specific state.
pub struct ProofStateView<S: State> {
    pub id: S::ID,
    pub nonce: S::Nonce,
    pub players: [Address; 2],
    pub signatures: Seq<(Address, Signature)>,
    pub approvals: Seq<(Address, (Address, Signature))>,
    pub state: S,
}

impl<S: State> ProofStateView<S> {
    /// Both tables are sorted by subkey, without repeats.
    pub open spec fn wf(self) -> bool {
        keys_sorted(self.signatures) && keys_sorted(self.approvals)
    }
}

impl<S: State> View for ProofState<S> {
    type V = ProofStateView<S>;

    closed spec fn view(&self) -> ProofStateView<S> {
        ProofStateView {
            id: self.id,
            nonce: self.nonce,
            players: self.players,
            signatures: self.signatures@,
            approvals: self.approvals@,
            state: self.state,
        }
    }
}

/// The player with the given address, if any.
pub open spec fn player_index(players: [Address; 2], address: Seq<u8>) -> Option<Player> {
    if players[0]@ == address {
        Some(0)
    } else if players[1]@ == address {
        Some(1)
    } else {
        None
    }
}

/// The player a subkey acts for, by the player's certification of the subkey, if any.
pub open spec fn certified_player<S: State>(v: ProofStateView<S>, address: Address) -> Option<
    Player,
> {
    match lookup(v.signatures, address) {
        Some(signature) => match recover_spec(encode_utf8(challenge_text(address@)), signature@) {
            Some(signer) => player_index(v.players, signer),
            None => None,
        },
        None => None,
    }
}

/// The player a subkey acts for, by the owner's approval of the subkey, if any.
pub open spec fn approved_player<S: State>(
    v: ProofStateView<S>,
    address: Address,
    owner: Address,
) -> Option<Player> {
    match lookup(v.approvals, address) {
        Some((player, signature)) => if recover_spec(
            encode_utf8(approval_text(player@, address@)),
            signature@,
        ) == Some(owner@) {
            player_index(v.players, player@)
        } else {
            None
        },
        None => None,
    }
}

/// The player associated with `address`: a player's own address, then a subkey certified by a
/// player, then a subkey the owner approved for a player.
#[verifier::opaque]
pub open spec fn player_of<S: State>(v: ProofStateView<S>, address: Address, owner: Address) -> Option<
    Player,
> {
    match player_index(v.players, address@) {
        Some(p) => Some(p),
        None => match certified_player(v, address) {
            Some(p) => Some(p),
            None => approved_player(v, address, owner),
        },
    }
}

/// The consensus state after `action`, with the nonce advanced, or `None` when it is refused:
/// a player beyond the two, a refused domain-specific action, a certification by the owner, of
/// a known subkey, or whose challenge signature does not recover to the certifying player, or
/// an approval by a player, or of a known subkey.
pub open spec fn apply_spec<S: State>(v: ProofStateView<S>, action: ProofAction<S>) -> Option<
    ProofStateView<S>,
> {
    if action.player matches Some(p) && p >= 2 {
        None
    } else {
        let next = match action.action {
            PlayerAction::Play(a) => match v.state.spec_apply(action.player, a) {
                Some(state) => Some(ProofStateView { state, ..v }),
                None => None,
            },
            PlayerAction::Certify { address, signature } => {
                if action.player is None || lookup(v.signatures, address) is Some || lookup(
                    v.approvals,
                    address,
                ) is Some {
                    None
                } else if recover_spec(encode_utf8(challenge_text(address@)), signature@) != Some(
                    v.players[action.player->0 as int]@,
                ) {
                    None
                } else {
                    Some(
                        ProofStateView {
                            signatures: insert_sorted(v.signatures, address, signature),
                            ..v
                        },
                    )
                }
            },
            PlayerAction::Approve { player, subkey, signature } => {
                if action.player is Some || lookup(v.signatures, subkey) is Some || lookup(
                    v.approvals,
                    subkey,
                ) is Some {
                    None
                } else {
                    Some(
                        ProofStateView {
                            approvals: insert_sorted(v.approvals, subkey, (player, signature)),
                            ..v
                        },
                    )
                }
            },
        };
        match next {
            Some(n) => Some(ProofStateView { nonce: v.nonce.spec_next(), ..n }),
            None => None,
        }
    }
}

/// Inserting an entry for one key leaves what the others look up.
proof fn lemma_lookup_insert<V>(entries: Seq<(Address, V)>, pos: int, key: Address, value: V, a: Address)
    requires
        0 <= pos <= entries.len(),
        a != key,
    ensures
        lookup(entries.insert(pos, (key, value)), a) == lookup(entries, a),
    decreases entries.len(),
{
    let ins = entries.insert(pos, (key, value));
    if pos == 0 {
        assert(ins.drop_first() =~= entries);
    } else {
        assert(ins[0] == entries[0]);
        assert(ins.drop_first() =~= entries.drop_first().insert(pos - 1, (key, value)));
        lemma_lookup_insert(entries.drop_first(), pos - 1, key, value, a);
    }
}

/// An action keeps the identifier and the players, and the player every address already acts
/// as.
pub proof fn lemma_apply_keeps<S: State>(v: ProofStateView<S>, action: ProofAction<S>, a: Address, owner: Address)
    requires
        apply_spec(v, action) is Some,
    ensures
        apply_spec(v, action)->0.id == v.id,
        apply_spec(v, action)->0.players == v.players,
        player_of(v, a, owner) is Some ==> player_of(apply_spec(v, action)->0, a, owner) == player_of(
            v,
            a,
            owner,
        ),
{
    reveal(player_of);
    let w = apply_spec(v, action)->0;
    match action.action {
        PlayerAction::Certify { address, signature } => {
            lemma_insert_position(v.signatures, address);
            if a != address {
                lemma_lookup_insert(
                    v.signatures,
                    insert_position(v.signatures, address) as int,
                    address,
                    signature,
                    a,
                );
            }
        },
        PlayerAction::Approve { player, subkey, signature } => {
            lemma_insert_position(v.approvals, subkey);
            if a != subkey {
                lemma_lookup_insert(
                    v.approvals,
                    insert_position(v.approvals, subkey) as int,
                    subkey,
                    (player, signature),
                    a,
                );
            }
        },
        _ => {},
    }
}


/// Applying an action to a well-formed consensus state keeps it well-formed.
pub proof fn lemma_apply_wf<S: State>(v: ProofStateView<S>, action: ProofAction<S>)
    requires
        v.wf(),
        apply_spec(v, action) is Some,
    ensures
        apply_spec(v, action)->0.wf(),
{
    match action.action {
        PlayerAction::Certify { address, signature } => {
            lemma_insert_sorted(v.signatures, address, signature);
        },
        PlayerAction::Approve { player, subkey, signature } => {
            lemma_insert_sorted(v.approvals, subkey, (player, signature));
        },
        _ => {},
    }
}


// ---------------------------------------------------------------------------
// Binary representation
// ---------------------------------------------------------------------------

/// The binary representation of a certification: the subkey, then the signature.
pub open spec fn signature_entry(e: (Address, Signature)) -> Seq<u8> {
    e.0@ + e.1@
}

/// The binary representation of an approval: the subkey, the player, then the signature.
pub open spec fn approval_entry(e: (Address, (Address, Signature))) -> Seq<u8> {
    e.0@ + e.1.0@ + e.1.1@
}

/// The certifications, one after the other.
pub open spec fn signatures_bytes(entries: Seq<(Address, Signature)>) -> Seq<u8> {
    concat_all(entries.map_values(|e: (Address, Signature)| signature_entry(e)))
}

/// The approvals, one after the other.
pub open spec fn approvals_bytes(entries: Seq<(Address, (Address, Signature))>) -> Seq<u8> {
    concat_all(entries.map_values(|e: (Address, (Address, Signature))| approval_entry(e)))
}

/// Whether a consensus state has a binary representation: its domain-specific state has one,
/// and the version and both tables have lengths that fit in 32 bits.
pub open spec fn state_serializable<S: State>(v: ProofStateView<S>) -> bool {
    &&& v.state.spec_serialize() is Some
    &&& S::spec_version().len() <= u32::MAX
    &&& v.signatures.len() <= u32::MAX
    &&& v.approvals.len() <= u32::MAX
}

/// The binary representation of a serializable consensus state: the version preceded by its
/// length, the identifier, the nonce, both players, the certifications preceded by their
/// number, the approvals preceded by their number, then the domain-specific state.
pub open spec fn state_bytes<S: State>(v: ProofStateView<S>) -> Seq<u8> {
    framed(S::spec_version()) + v.id.spec_serialize() + v.nonce.spec_serialize() + v.players[0]@
        + v.players[1]@ + le_u32_bytes(v.signatures.len() as int) + signatures_bytes(v.signatures)
        + le_u32_bytes(v.approvals.len() as int) + approvals_bytes(v.approvals)
        + v.state.spec_serialize()->0
}

/// The certifications read from `count` entries at the front of `data`.
pub open spec fn signature_entries(data: Seq<u8>, count: nat) -> Seq<(Address, Signature)> {
    chunks(data, count as int, 85).map_values(
        |c: Seq<u8>| (array20(c.take(20)), array65(c.skip(20))),
    )
}

/// The approvals read from `count` entries at the front of `data`.
pub open spec fn approval_entries(data: Seq<u8>, count: nat) -> Seq<(Address, (Address, Signature))> {
    chunks(data, count as int, 105).map_values(
        |c: Seq<u8>| (array20(c.take(20)), (array20(c.subrange(20, 40)), array65(c.skip(40)))),
    )
}

/// The consensus state read from a binary representation, if it is one: the version must be
/// this implementation's, and both tables sorted by subkey without repeats.
pub open spec fn parse_state<S: State>(data: Seq<u8>) -> Option<ProofStateView<S>> {
    let version = S::spec_version();
    if data.len() < 4 {
        None
    } else {
        let size = le_u32_value(data);
        let r0 = data.skip(4);
        if size != version.len() || r0.len() < size || r0.take(size) != version {
            None
        } else {
            parse_state_body::<S>(r0.skip(size))
        }
    }
}

/// The consensus state read from what follows the version: the identifier, the nonce, then
/// the players, tables and domain-specific state.
pub open spec fn parse_state_body<S: State>(data: Seq<u8>) -> Option<ProofStateView<S>> {
    match S::ID::spec_deserialize(data) {
        None => None,
        Some((id, n)) => {
            let r2 = data.skip(n as int);
            match S::Nonce::spec_deserialize(r2) {
                None => None,
                Some((nonce, m)) => parse_state_tables::<S>(id, nonce, r2.skip(m as int)),
            }
        },
    }
}

/// The consensus state read from what follows the nonce: both players, the certifications
/// preceded by their number, the approvals preceded by their number, then the domain-specific
/// state.
#[verifier::opaque]
pub open spec fn parse_state_tables<S: State>(id: S::ID, nonce: S::Nonce, data: Seq<u8>) -> Option<
    ProofStateView<S>,
> {
    if data.len() < 48 {
        None
    } else {
        let r4 = data.skip(40);
        let count = le_u32_value(r4);
        let r5 = r4.skip(4);
        let signatures = signature_entries(r5, count as nat);
        if r5.len() < count * 85 || !keys_sorted(signatures) {
            None
        } else {
            let r6 = r5.skip(count * 85);
            if r6.len() < 4 {
                None
            } else {
                let count2 = le_u32_value(r6);
                let r7 = r6.skip(4);
                let approvals = approval_entries(r7, count2 as nat);
                if r7.len() < count2 * 105 || !keys_sorted(approvals) {
                    None
                } else {
                    match S::spec_deserialize(r7.skip(count2 * 105)) {
                        None => None,
                        Some(state) => Some(
                            ProofStateView {
                                id,
                                nonce,
                                players: [array20(data.take(20)), array20(data.subrange(20, 40))],
                                signatures,
                                approvals,
                                state,
                            },
                        ),
                    }
                }
            }
        }
    }
}

/// The binary representation of what follows the nonce.
pub open spec fn state_tables_bytes<S: State>(v: ProofStateView<S>) -> Seq<u8> {
    v.players[0]@ + v.players[1]@ + le_u32_bytes(v.signatures.len() as int) + signatures_bytes(
        v.signatures,
    ) + le_u32_bytes(v.approvals.len() as int) + approvals_bytes(v.approvals)
        + v.state.spec_serialize()->0
}

/// Whether reading an identifier's binary representation, whatever follows it, gives back the
/// identifier and stops at the end of the representation.
pub open spec fn id_roundtrips<I: ID>(id: I) -> bool {
    forall|rest: Seq<u8>|
        #[trigger] I::spec_deserialize(id.spec_serialize() + rest) == Some(
            (id, id.spec_serialize().len()),
        )
}

proof fn lemma_signature_entries(entries: Seq<(Address, Signature)>, rest: Seq<u8>)
    ensures
        signatures_bytes(entries).len() == entries.len() * 85,
        signature_entries(signatures_bytes(entries) + rest, entries.len()) == entries,
{
    let m = entries.map_values(|e: (Address, Signature)| signature_entry(e));
    assert forall|i: int| 0 <= i < m.len() implies (#[trigger] m[i]).len() == 85 by {
        assert(m[i] == signature_entry(entries[i]));
    }
    lemma_concat_uniform(m, 85);
    let c = concat_all(m);
    let data = c + rest;
    let parsed = signature_entries(data, entries.len());
    assert forall|i: int| 0 <= i < entries.len() implies #[trigger] parsed[i] == entries[i] by {
        assert(i * 85 + 85 <= entries.len() * 85) by (nonlinear_arith)
            requires i < entries.len();
        assert(0 <= i * 85) by (nonlinear_arith)
            requires 0 <= i;
        assert((i + 1) * 85 == i * 85 + 85);
        let chunk = data.subrange(i * 85, (i + 1) * 85);
        assert(chunk =~= c.subrange(i * 85, (i + 1) * 85));
        assert(chunks(c, entries.len() as int, 85)[i] == m[i]);
        assert(chunk == signature_entry(entries[i]));
        assert(chunk.take(20) =~= entries[i].0@);
        assert(chunk.skip(20) =~= entries[i].1@);
        lemma_array20(entries[i].0);
        lemma_array65(entries[i].1);
    }
    assert(parsed =~= entries);
}

proof fn lemma_approval_entries(entries: Seq<(Address, (Address, Signature))>, rest: Seq<u8>)
    ensures
        approvals_bytes(entries).len() == entries.len() * 105,
        approval_entries(approvals_bytes(entries) + rest, entries.len()) == entries,
{
    let m = entries.map_values(|e: (Address, (Address, Signature))| approval_entry(e));
    assert forall|i: int| 0 <= i < m.len() implies (#[trigger] m[i]).len() == 105 by {
        assert(m[i] == approval_entry(entries[i]));
    }
    lemma_concat_uniform(m, 105);
    let c = concat_all(m);
    let data = c + rest;
    let parsed = approval_entries(data, entries.len());
    assert forall|i: int| 0 <= i < entries.len() implies #[trigger] parsed[i] == entries[i] by {
        assert(i * 105 + 105 <= entries.len() * 105) by (nonlinear_arith)
            requires i < entries.len();
        assert(0 <= i * 105) by (nonlinear_arith)
            requires 0 <= i;
        assert((i + 1) * 105 == i * 105 + 105);
        let chunk = data.subrange(i * 105, (i + 1) * 105);
        assert(chunk =~= c.subrange(i * 105, (i + 1) * 105));
        assert(chunks(c, entries.len() as int, 105)[i] == m[i]);
        assert(chunk == approval_entry(entries[i]));
        assert(chunk.take(20) =~= entries[i].0@);
        assert(chunk.subrange(20, 40) =~= entries[i].1.0@);
        assert(chunk.skip(40) =~= entries[i].1.1@);
        lemma_array20(entries[i].0);
        lemma_array20(entries[i].1.0);
        lemma_array65(entries[i].1.1);
    }
    assert(parsed =~= entries);
}

#[verifier::rlimit(60)]
proof fn lemma_tables_roundtrip<S: State>(v: ProofStateView<S>)
    requires
        v.wf(),
        state_serializable(v),
    ensures
        parse_state_tables::<S>(v.id, v.nonce, state_tables_bytes(v)) == Some(v),
{
    let sb = signatures_bytes(v.signatures);
    let ab = approvals_bytes(v.approvals);
    let st = v.state.spec_serialize()->0;
    let r7 = ab + st;
    let r6 = le_u32_bytes(v.approvals.len() as int) + r7;
    let r5 = sb + r6;
    let r4 = le_u32_bytes(v.signatures.len() as int) + r5;
    let r3 = state_tables_bytes(v);
    reveal(parse_state_tables);
    lemma_le_u32_roundtrip(v.signatures.len() as int);
    lemma_le_u32_roundtrip(v.approvals.len() as int);
    assert(r3 =~= v.players[0]@ + v.players[1]@ + r4);
    assert(r3.take(20) =~= v.players[0]@);
    assert(r3.subrange(20, 40) =~= v.players[1]@);
    lemma_array20(v.players[0]);
    lemma_array20(v.players[1]);
    assert(r3.skip(40) =~= r4);
    assert(le_u32_value(r4) == le_u32_value(le_u32_bytes(v.signatures.len() as int)));
    assert(r4.skip(4) =~= r5);
    lemma_signature_entries(v.signatures, r6);
    assert(r5.skip((v.signatures.len() * 85) as int) =~= r6);
    assert(le_u32_value(r6) == le_u32_value(le_u32_bytes(v.approvals.len() as int)));
    assert(r6.skip(4) =~= r7);
    lemma_approval_entries(v.approvals, st);
    assert(r7.skip((v.approvals.len() * 105) as int) =~= st);
    S::lemma_roundtrip(v.state);
    let players: [Address; 2] = [array20(r3.take(20)), array20(r3.subrange(20, 40))];
    assert(players@ =~= v.players@);
    let count = le_u32_value(r4);
    let count2 = le_u32_value(r6);
    assert(count == v.signatures.len());
    assert(count2 == v.approvals.len());
    assert(r3.len() >= 48);
    assert(signature_entries(r5, count as nat) == v.signatures);
    assert(approval_entries(r7, count2 as nat) == v.approvals);
    assert(r5.len() >= count * 85);
    assert(r6.len() >= 4);
    assert(r7.len() >= count2 * 105);
    assert(S::spec_deserialize(r7.skip(count2 * 105)) == Some(v.state));
    assert(players == v.players);
}

/// Reading back the binary representation of a well-formed, serializable consensus state, whose
/// identifier reads back, gives back the state.
pub proof fn lemma_state_roundtrip<S: State>(v: ProofStateView<S>)
    requires
        v.wf(),
        state_serializable(v),
        id_roundtrips(v.id),
    ensures
        parse_state::<S>(state_bytes(v)) == Some(v),
{
    let version = S::spec_version();
    let idb = v.id.spec_serialize();
    let nb = v.nonce.spec_serialize();
    let r3 = state_tables_bytes(v);
    let r2 = nb + r3;
    let r1 = idb + r2;
    let data = state_bytes(v);
    lemma_le_u32_roundtrip(version.len() as int);
    assert(data =~= le_u32_bytes(version.len() as int) + (version + r1));
    assert(data.skip(4) =~= version + r1);
    assert((version + r1).take(version.len() as int) =~= version);
    assert((version + r1).skip(version.len() as int) =~= r1);
    assert(le_u32_value(data) == le_u32_value(le_u32_bytes(version.len() as int)));
    assert(S::ID::spec_deserialize(idb + r2) == Some((v.id, idb.len())));
    assert(r1.skip(idb.len() as int) =~= r2);
    S::Nonce::lemma_roundtrip(v.nonce, r3);
    assert(r2.skip(nb.len() as int) =~= r3);
    lemma_tables_roundtrip(v);
}

impl<S: State> ProofState<S> {
    /// Constructs a consensus state.
    ///
    /// `state` must be serializable.
    pub fn new(id: S::ID, players: [Address; 2], state: S) -> (r: Result<Self, String>)
        ensures
            r is Ok <==> state.spec_serialize() is Some,
            r matches Ok(p) ==> {
                &&& p@.wf()
                &&& p@.id == id
                &&& p@.players == players
                &&& p@.signatures.len() == 0
                &&& p@.approvals.len() == 0
                &&& p@.state == state
            },
    {
        if !state.is_serializable() {
            return Err("!state.is_serializable()".to_owned());
        }
        Ok(ProofState {
            id,
            nonce: S::Nonce::default(),
            players,
            signatures: Vec::new(),
            approvals: Vec::new(),
            state,
        })
    }

    /// Gets the identifier of the state.
    pub fn id(&self) -> (r: &S::ID)
        ensures
            *r == self@.id,
    {
        &self.id
    }

    /// Gets the addresses of the players.
    pub fn players(&self) -> (r: &[Address])
        ensures
            r@ == self@.players@,
    {
        self.players.as_slice()
    }

    /// Gets the domain-specific state.
    pub fn state(&self) -> (r: &S)
        ensures
            *r == self@.state,
    {
        &self.state
    }

    fn player_position(&self, address: &Address) -> (r: Option<Player>)
        ensures
            r == player_index(self@.players, address@),
    {
        proof {
            lemma_array20(self.players[0]);
            lemma_array20(self.players[1]);
            lemma_array20(*address);
        }
        if address_eq(&self.players[0], address) {
            Some(0)
        } else if address_eq(&self.players[1], address) {
            Some(1)
        } else {
            None
        }
    }

    /// Gets the player associated with the given `address`, if any, otherwise [None].
    pub fn player(&self, address: &Address, owner: &Address) -> (r: Option<Player>)
        ensures
            r == player_of(self@, *address, *owner),
    {
        proof {
            reveal(player_of);
        }
        if let Some(p) = self.player_position(address) {
            return Some(p);
        }
        let mut certified: Option<Player> = None;
        if let Some(i) = find_key(&self.signatures, address) {
            let signature = self.signatures[i].1;
            let challenge = S::challenge(address);
            if let Ok(signer) = recover(challenge.as_str().as_bytes(), signature.as_slice()) {
                certified = self.player_position(&signer);
            }
        }
        if certified.is_some() {
            return certified;
        }
        if let Some(i) = find_key(&self.approvals, address) {
            let (player, signature) = self.approvals[i].1;
            let approval = S::approval(&player, address);
            if let Ok(signer) = recover(approval.as_str().as_bytes(), signature.as_slice()) {
                if address_eq(&signer, owner) {
                    return self.player_position(&player);
                }
                proof {
                    if signer@ == owner@ {
                        lemma_array20(signer);
                        lemma_array20(*owner);
                    }
                }
            }
        }
        None
    }

    /// Applies an action to the consensus state, advancing the nonce.
    pub fn apply(&mut self, action: &ProofAction<S>) -> (r: Result<(), String>)
        requires
            old(self)@.wf(),
        ensures
            match apply_spec(old(self)@, *action) {
                Some(v) => r is Ok && final(self)@ == v,
                None => r is Err,
            },
            final(self)@.wf() || r is Err,
    {
        let player = action.player;
        if let Some(p) = player {
            if p >= 2 {
                return Err("player.is_some() && usize::from(player.unwrap()) >= self.players.len()".to_owned());
            }
        }
        match &action.action {
            PlayerAction::Play(a) => {
                self.state.apply(player, a)?;
            },
            PlayerAction::Certify { address, signature } => {
                let p = match player {
                    None => return Err("player.is_none()".to_owned()),
                    Some(p) => p,
                };
                if find_key(&self.signatures, address).is_some() {
                    return Err("self.signatures.contains_key(address)".to_owned());
                }
                if find_key(&self.approvals, address).is_some() {
                    return Err("self.approvals.contains_key(address)".to_owned());
                }
                let challenge = S::challenge(address);
                let signer = recover(challenge.as_str().as_bytes(), signature.as_slice())?;
                let expected = if p == 0 { self.players[0] } else { self.players[1] };
                proof {
                    lemma_array20(signer);
                    lemma_array20(expected);
                }
                if !address_eq(&signer, &expected) {
                    return Err("recovered challenge signer != player".to_owned());
                }
                let pos = find_insert_position(&self.signatures, address);
                proof {
                    lemma_insert_sorted(self.signatures@, *address, *signature);
                }
                self.signatures.insert(pos, (*address, *signature));
            },
            PlayerAction::Approve { player: owner_player, subkey, signature } => {
                if player.is_some() {
                    return Err("action.player.is_some()".to_owned());
                }
                if find_key(&self.signatures, subkey).is_some() {
                    return Err("self.signatures.contains_key(subkey)".to_owned());
                }
                if find_key(&self.approvals, subkey).is_some() {
                    return Err("self.approvals.contains_key(subkey)".to_owned());
                }
                let pos = find_insert_position(&self.approvals, subkey);
                proof {
                    lemma_insert_sorted(self.approvals@, *subkey, (*owner_player, *signature));
                }
                self.approvals.insert(pos, (*subkey, (*owner_player, *signature)));
            },
        }
        self.nonce = self.nonce.next();
        Ok(())
    }


    /// Constructs a consensus state from its binary representation.
    ///
    /// `data` must have been constructed using [ProofState::serialize].
    pub fn deserialize(data: &[u8]) -> (r: Result<Self, String>)
        ensures
            match parse_state::<S>(data@) {
                Some(v) => r matches Ok(p) && p@ == v && p@.wf(),
                None => r is Err,
            },
    {
        proof {
            reveal(parse_state_tables);
        }
        let version = S::version();
        let mut cur = data;
        let size = read_u32_usize(&mut cur)?;
        if size != version.len() {
            return Err("size != version.len()".to_owned());
        }
        if cur.len() < size {
            return Err("data.len() < size".to_owned());
        }
        let (head, rest) = cur.split_at(size);
        if !slices_equal(head, version) {
            return Err("data[..size] != *version".to_owned());
        }
        let ghost r1 = rest@;
        cur = rest;
        let id = S::ID::deserialize(&mut cur)?;
        let nonce = S::Nonce::deserialize(&mut cur)?;
        if cur.len() < 48 {
            return Err("data.len() < 2 * size_of::<Address>() + 2 * size_of::<u32>()".to_owned());
        }
        let ghost r3 = cur@;
        let (p0, rest) = cur.split_at(20);
        let (p1, rest) = rest.split_at(20);
        let players = [copy20(p0), copy20(p1)];
        cur = rest;
        proof {
            assert(p0@ =~= r3.take(20));
            assert(p1@ =~= r3.subrange(20, 40));
            assert(cur@ =~= r3.skip(40));
            lemma_array20(players[0]);
            lemma_array20(players[1]);
        }
        let length = read_u32_usize(&mut cur)?;
        if (cur.len() as u64) < (length as u64) * 85 {
            return Err("data.len() < length * (size_of::<Address>() + size_of::<Signature>())".to_owned());
        }
        let ghost r5 = cur@;
        let ghost expected = signature_entries(r5, length as nat);
        let mut signatures: Vec<(Address, Signature)> = Vec::new();
        let mut i: usize = 0;
        while i < length
            invariant
                i <= length,
                r5.len() >= length * 85,
                expected == signature_entries(r5, length as nat),
                !keys_sorted(expected) ==> parse_state::<S>(data@) is None,
                cur@ == r5.skip(85 * i),
                signatures@ == expected.take(i as int),
                keys_sorted(signatures@),
            decreases length - i,
        {
            let (entry, rest) = cur.split_at(85);
            let (a, sig) = entry.split_at(20);
            let address = copy20(a);
            let signature = copy65(sig);
            proof {
                assert(entry@ =~= r5.subrange(85 * i, 85 * i + 85));
                assert(a@ =~= entry@.take(20));
                assert(sig@ =~= entry@.skip(20));
                lemma_array20(address);
                lemma_array65(signature);
                assert(expected[i as int] == (address, signature));
            }
            if i > 0 {
                let previous = signatures[i - 1].0;
                if !address_lt(&previous, &address) {
                    proof {
                        assert(expected[i - 1] == signatures@[i - 1]);
                        assert(!sorted_at(expected, i - 1));
                    }
                    return Err("address <= previous".to_owned());
                }
            }
            let ghost before = signatures@;
            signatures.push((address, signature));
            proof {
                assert forall|k: int| 0 <= k < signatures@.len() - 1 implies #[trigger] sorted_at(
                    signatures@,
                    k,
                ) by {
                    if k < i - 1 {
                        assert(sorted_at(before, k));
                    }
                }
                assert(signatures@ =~= expected.take(i + 1));
                assert(rest@ =~= r5.skip(85 * (i + 1)));
            }
            cur = rest;
            i = i + 1;
        }
        assert(signatures@ =~= expected);
        let length2 = read_u32_usize(&mut cur)?;
        if (cur.len() as u64) < (length2 as u64) * 105 {
            return Err("data.len() < length * (2 * size_of::<Address>() + size_of::<Signature>())".to_owned());
        }
        let ghost r7 = cur@;
        let ghost expected2 = approval_entries(r7, length2 as nat);
        let mut approvals: Vec<(Address, (Address, Signature))> = Vec::new();
        let mut j: usize = 0;
        while j < length2
            invariant
                j <= length2,
                r7.len() >= length2 * 105,
                expected2 == approval_entries(r7, length2 as nat),
                !keys_sorted(expected2) ==> parse_state::<S>(data@) is None,
                cur@ == r7.skip(105 * j),
                approvals@ == expected2.take(j as int),
                keys_sorted(approvals@),
            decreases length2 - j,
        {
            let (entry, rest) = cur.split_at(105);
            let (a, tail) = entry.split_at(20);
            let (b, sig) = tail.split_at(20);
            let subkey = copy20(a);
            let player = copy20(b);
            let signature = copy65(sig);
            proof {
                assert(entry@ =~= r7.subrange(105 * j, 105 * j + 105));
                assert(a@ =~= entry@.take(20));
                assert(b@ =~= entry@.subrange(20, 40));
                assert(sig@ =~= entry@.skip(40));
                lemma_array20(subkey);
                lemma_array20(player);
                lemma_array65(signature);
                assert(expected2[j as int] == (subkey, (player, signature)));
            }
            if j > 0 {
                let previous = approvals[j - 1].0;
                if !address_lt(&previous, &subkey) {
                    proof {
                        assert(expected2[j - 1] == approvals@[j - 1]);
                        assert(!sorted_at(expected2, j - 1));
                    }
                    return Err("subkey <= previous".to_owned());
                }
            }
            let ghost before = approvals@;
            approvals.push((subkey, (player, signature)));
            proof {
                assert forall|k: int| 0 <= k < approvals@.len() - 1 implies #[trigger] sorted_at(
                    approvals@,
                    k,
                ) by {
                    if k < j - 1 {
                        assert(sorted_at(before, k));
                    }
                }
                assert(approvals@ =~= expected2.take(j + 1));
                assert(rest@ =~= r7.skip(105 * (j + 1)));
            }
            cur = rest;
            j = j + 1;
        }
        assert(approvals@ =~= expected2);
        let state = S::deserialize(cur)?;
        Ok(ProofState { id, nonce, players, signatures, approvals, state })
    }

    /// Checks if the consensus state has a binary representation.
    pub fn is_serializable(&self) -> (b: bool)
        ensures
            b == state_serializable(self@),
    {
        self.signatures.len() <= 0xffff_ffff && self.approvals.len() <= 0xffff_ffff
            && S::version().len() <= 0xffff_ffff && self.state.is_serializable()
    }

    /// Generates a binary representation that can be used to reconstruct the consensus state.
    pub fn serialize(&self) -> (r: Option<Vec<u8>>)
        ensures
            match r {
                Some(bytes) => state_serializable(self@) && bytes@ == state_bytes(self@),
                None => !state_serializable(self@),
            },
    {
        let version = S::version();
        let state = match self.state.serialize() {
            Some(state) => state,
            None => return None,
        };
        let id = self.id.serialize();
        let nonce = self.nonce.serialize();
        let mut data: Vec<u8> = Vec::new();
        if write_u32_usize(&mut data, version.len()).is_err() {
            return None;
        }
        data.extend_from_slice(version);
        data.extend_from_slice(id.as_slice());
        data.extend_from_slice(nonce.as_slice());
        data.extend_from_slice(self.players[0].as_slice());
        data.extend_from_slice(self.players[1].as_slice());
        if write_u32_usize(&mut data, self.signatures.len()).is_err() {
            return None;
        }
        let ghost head = data@;
        let ghost entries = self@.signatures.map_values(
            |e: (Address, Signature)| signature_entry(e),
        );
        let mut i: usize = 0;
        while i < self.signatures.len()
            invariant
                i <= self.signatures@.len(),
                entries == self@.signatures.map_values(
                    |e: (Address, Signature)| signature_entry(e),
                ),
                data@ == head + concat_all(entries.take(i as int)),
            decreases self.signatures@.len() - i,
        {
            let (address, signature) = self.signatures[i];
            data.extend_from_slice(address.as_slice());
            data.extend_from_slice(signature.as_slice());
            proof {
                assert(entries.take(i + 1) =~= entries.take(i as int).push(entries[i as int]));
                lemma_concat_all_push(entries.take(i as int), entries[i as int]);
                assert(data@ =~= head + concat_all(entries.take(i + 1)));
            }
            i = i + 1;
        }
        assert(entries.take(i as int) =~= entries);
        if write_u32_usize(&mut data, self.approvals.len()).is_err() {
            return None;
        }
        let ghost head2 = data@;
        let ghost entries2 = self@.approvals.map_values(
            |e: (Address, (Address, Signature))| approval_entry(e),
        );
        let mut j: usize = 0;
        while j < self.approvals.len()
            invariant
                j <= self.approvals@.len(),
                entries2 == self@.approvals.map_values(
                    |e: (Address, (Address, Signature))| approval_entry(e),
                ),
                data@ == head2 + concat_all(entries2.take(j as int)),
            decreases self.approvals@.len() - j,
        {
            let (subkey, (player, signature)) = self.approvals[j];
            data.extend_from_slice(subkey.as_slice());
            data.extend_from_slice(player.as_slice());
            data.extend_from_slice(signature.as_slice());
            proof {
                assert(entries2.take(j + 1) =~= entries2.take(j as int).push(entries2[j as int]));
                lemma_concat_all_push(entries2.take(j as int), entries2[j as int]);
                assert(data@ =~= head2 + concat_all(entries2.take(j + 1)));
            }
            j = j + 1;
        }
        assert(entries2.take(j as int) =~= entries2);
        data.extend_from_slice(state.as_slice());
        assert(data@ =~= state_bytes(self@));
        Some(data)
    }

}

impl<S: State> Clone for ProofState<S> {
    fn clone(&self) -> (r: Self)
        ensures
            r@ == self@,
    {
        let id = self.id.clone();
        let nonce = self.nonce.clone();
        let state = self.state.clone();
        proof {
            S::ID::lemma_clone(self.id, id);
            S::Nonce::lemma_clone(self.nonce, nonce);
            S::lemma_clone(self.state, state);
        }
        let mut signatures: Vec<(Address, Signature)> = Vec::new();
        let mut i: usize = 0;
        while i < self.signatures.len()
            invariant
                i <= self.signatures@.len(),
                signatures@ == self.signatures@.take(i as int),
            decreases self.signatures@.len() - i,
        {
            signatures.push(self.signatures[i]);
            assert(signatures@ =~= self.signatures@.take(i + 1));
            i = i + 1;
        }
        let mut approvals: Vec<(Address, (Address, Signature))> = Vec::new();
        let mut j: usize = 0;
        while j < self.approvals.len()
            invariant
                j <= self.approvals@.len(),
                approvals@ == self.approvals@.take(j as int),
            decreases self.approvals@.len() - j,
        {
            approvals.push(self.approvals[j]);
            assert(approvals@ =~= self.approvals@.take(j + 1));
            j = j + 1;
        }
        assert(signatures@ =~= self.signatures@);
        assert(approvals@ =~= self.approvals@);
        ProofState { id, nonce, players: self.players, signatures, approvals, state }
    }

}

} // verus!
