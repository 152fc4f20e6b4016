//! Domain-specific traits of the authenticated-state layer: states, identifiers, nonces and
//! actions, with the models their implementations are held to.
use vstd::prelude::*;
use vstd::string::*;
use crate::crypto::{eip55, eip55_spec, Address};
use crate::utils::{
    le_bytes, le_bytes_vec, le_value, le_value_of, lemma_le_value_bound, lemma_le_value_of_bytes,
    pow256,
};

verus! {

/// Player identifier
pub type Player = u8;

// ---------------------------------------------------------------------------
// Signed texts
// ---------------------------------------------------------------------------

/// The text a player signs in order to certify the subkey with the given address.
pub open spec fn challenge_text(address: Seq<u8>) -> Seq<char> {
    "Sign to play! This won't cost anything.\n\n"@ + eip55_spec(address) + "\n"@
}

/// The text the owner signs in order to approve a subkey for a player.
pub open spec fn approval_text(player: Seq<u8>, subkey: Seq<u8>) -> Seq<char> {
    "Approve "@ + eip55_spec(subkey) + " for "@ + eip55_spec(player) + "."@
}

/// The approval text reads "Approve ", the EIP-55 form of the subkey, " for ", the EIP-55 form
/// of the player, then ".": for 20-byte addresses, the subkey's form takes characters 8 to 50
/// and the player's characters 55 to 97 of the 98.
pub proof fn lemma_approval_text_layout(player: Seq<u8>, subkey: Seq<u8>)
    requires
        player.len() == 20,
        subkey.len() == 20,
    ensures
        approval_text(player, subkey).len() == 98,
        approval_text(player, subkey).subrange(0, 8) == "Approve "@,
        approval_text(player, subkey).subrange(8, 50) == eip55_spec(subkey),
        approval_text(player, subkey).subrange(50, 55) == " for "@,
        approval_text(player, subkey).subrange(55, 97) == eip55_spec(player),
        approval_text(player, subkey)[97] == '.',
{
    reveal_strlit("Approve ");
    reveal_strlit(" for ");
    reveal_strlit(".");
    let t = approval_text(player, subkey);
    let es = eip55_spec(subkey);
    let ep = eip55_spec(player);
    assert(es.len() == 42);
    assert(ep.len() == 42);
    assert(t.subrange(0, 8) =~= "Approve "@);
    assert(t.subrange(8, 50) =~= es);
    assert(t.subrange(50, 55) =~= " for "@);
    assert(t.subrange(55, 97) =~= ep);
}

/// The challenge text reads "Sign to play! This won't cost anything.", two line breaks, the
/// EIP-55 form of the subkey address, then a line break.
pub proof fn lemma_challenge_text_layout(address: Seq<u8>)
    requires
        address.len() == 20,
    ensures
        challenge_text(address).len() == 84,
        challenge_text(address).subrange(0, 41) == "Sign to play! This won't cost anything.\n\n"@,
        challenge_text(address).subrange(41, 83) == eip55_spec(address),
        challenge_text(address)[83] == '\n',
{
    reveal_strlit("Sign to play! This won't cost anything.\n\n");
    reveal_strlit("\n");
    let t = challenge_text(address);
    let e = eip55_spec(address);
    assert(e.len() == 42);
    assert(t.subrange(0, 41) =~= "Sign to play! This won't cost anything.\n\n"@);
    assert(t.subrange(41, 83) =~= e);
}

/// Builds the challenge text for a subkey address.
pub fn challenge_string(address: &Address) -> (s: String)
    ensures
        s@ == challenge_text(address@),
{
    let mut s = String::from_str("Sign to play! This won't cost anything.\n\n");
    let checksummed = eip55(address);
    s.append(checksummed.as_str());
    s.append("\n");
    s
}

/// Builds the approval text for a player's subkey.
pub fn approval_string(player: &Address, subkey: &Address) -> (s: String)
    ensures
        s@ == approval_text(player@, subkey@),
{
    let mut s = String::from_str("Approve ");
    let sub = eip55(subkey);
    s.append(sub.as_str());
    s.append(" for ");
    let owner = eip55(player);
    s.append(owner.as_str());
    s.append(".");
    s
}

// ---------------------------------------------------------------------------
// Traits
// ---------------------------------------------------------------------------

/// Domain-specific identifier trait
pub trait ID: Clone + Eq + Sized {
    /// The binary representation of the identifier.
    spec fn spec_serialize(&self) -> Seq<u8>;

    /// The identifier at the front of `data` and the number of bytes it takes, if any.
    spec fn spec_deserialize(data: Seq<u8>) -> Option<(Self, nat)>;

    /// Consumes an identifier from binary data.
    ///
    /// The identifier must have been constructed using [ID::serialize].
    fn deserialize(data: &mut &[u8]) -> (r: Result<Self, String>)
        ensures
            match Self::spec_deserialize(old(data)@) {
                Some((id, n)) => {
                    &&& r matches Ok(v) && v == id
                    &&& n <= old(data)@.len()
                    &&& final(data)@ == old(data)@.skip(n as int)
                },
                None => r is Err,
            },
    ;

    /// Generates a binary representation that can be used to reconstruct the identifier.
    ///
    /// See [ID::deserialize].
    fn serialize(&self) -> (r: Vec<u8>)
        ensures
            r@ == self.spec_serialize(),
    ;

    /// A clone of an identifier is that identifier.
    proof fn lemma_clone(a: Self, b: Self)
        requires
            cloned(a, b),
        ensures
            a == b,
    ;
}

/// Domain-specific nonce trait
pub trait Nonce: Clone + Default + Sized {
    /// The binary representation of the nonce.
    spec fn spec_serialize(&self) -> Seq<u8>;

    /// The nonce at the front of `data` and the number of bytes it takes, if any.
    spec fn spec_deserialize(data: Seq<u8>) -> Option<(Self, nat)>;

    /// The next nonce in sequence.
    spec fn spec_next(&self) -> Self;

    /// Consumes a nonce from binary data.
    ///
    /// The nonce must have been constructed using [Nonce::serialize].
    fn deserialize(data: &mut &[u8]) -> (r: Result<Self, String>)
        ensures
            match Self::spec_deserialize(old(data)@) {
                Some((nonce, n)) => {
                    &&& r matches Ok(v) && v == nonce
                    &&& n <= old(data)@.len()
                    &&& final(data)@ == old(data)@.skip(n as int)
                },
                None => r is Err,
            },
    ;

    /// Generates a binary representation that can be used to reconstruct the nonce.
    ///
    /// See [Nonce::deserialize].
    fn serialize(&self) -> (r: Vec<u8>)
        ensures
            r@ == self.spec_serialize(),
    ;

    /// Gets the next nonce in sequence.
    fn next(&self) -> (r: Self)
        ensures
            r == self.spec_next(),
    ;

    /// A clone of a nonce is that nonce.
    proof fn lemma_clone(a: Self, b: Self)
        requires
            cloned(a, b),
        ensures
            a == b,
    ;

    /// Reading a nonce's binary representation, whatever follows it, gives back the nonce.
    proof fn lemma_roundtrip(nonce: Self, rest: Seq<u8>)
        ensures
            Self::spec_deserialize(nonce.spec_serialize() + rest)
                == Some((nonce, nonce.spec_serialize().len())),
    ;
}

/// Domain-specific state transition trait
pub trait Action: Clone + Sized {
    /// The binary representation of the action.
    spec fn spec_serialize(&self) -> Seq<u8>;

    /// The action represented by `data`, if any.
    spec fn spec_deserialize(data: Seq<u8>) -> Option<Self>;

    /// Constructs an action from its binary representation.
    ///
    /// `data` must have been constructed using [Action::serialize].
    fn deserialize(data: &[u8]) -> (r: Result<Self, String>)
        ensures
            match Self::spec_deserialize(data@) {
                Some(action) => r matches Ok(v) && v == action,
                None => r is Err,
            },
    ;

    /// Generates a binary representation that can be used to reconstruct the action.
    ///
    /// See [Action::deserialize].
    fn serialize(&self) -> (r: Vec<u8>)
        ensures
            r@ == self.spec_serialize(),
    ;

    /// A clone of an action is that action.
    proof fn lemma_clone(a: Self, b: Self)
        requires
            cloned(a, b),
        ensures
            a == b,
    ;

    /// Reading an action's binary representation gives back the action.
    proof fn lemma_roundtrip(action: Self)
        ensures
            Self::spec_deserialize(action.spec_serialize()) == Some(action),
    ;
}

/// Domain-specific state trait
pub trait State: Clone + Sized {
    /// Identifier type
    type ID: ID;

    /// Nonce type
    type Nonce: Nonce;

    /// Action type
    type Action: Action;

    /// The ABI version of this implementation.
    spec fn spec_version() -> Seq<u8>;

    /// The state represented by `data`, if any.
    spec fn spec_deserialize(data: Seq<u8>) -> Option<Self>;

    /// The binary representation of the state, if it has one.
    spec fn spec_serialize(&self) -> Option<Seq<u8>>;

    /// The state after `player` (or the owner, for `None`) applies `action`, if the action is
    /// accepted.
    spec fn spec_apply(&self, player: Option<Player>, action: Self::Action) -> Option<Self>;

    /// Gets the ABI version of this implementation.
    fn version() -> (v: &'static [u8])
        ensures
            v@ == Self::spec_version(),
    ;

    /// Gets the challenge that must be signed in order to certify the subkey with the given
    /// address.
    fn challenge(address: &Address) -> (s: String)
        ensures
            s@ == challenge_text(address@),
    {
        challenge_string(address)
    }

    /// Gets the approval that must be signed by the owner in order to approve a subkey for a
    /// player.
    fn approval(player: &Address, subkey: &Address) -> (s: String)
        ensures
            s@ == approval_text(player@, subkey@),
    {
        approval_string(player, subkey)
    }

    /// Constructs a state from its binary representation.
    ///
    /// `data` must have been constructed using [State::serialize].
    fn deserialize(data: &[u8]) -> (r: Result<Self, String>)
        ensures
            match Self::spec_deserialize(data@) {
                Some(state) => r matches Ok(v) && v == state,
                None => r is Err,
            },
    ;

    /// Checks if the state has a binary representation.
    ///
    /// The return value agrees with [State::serialize].
    fn is_serializable(&self) -> (b: bool)
        ensures
            b == self.spec_serialize() is Some,
    {
        self.serialize().is_some()
    }

    /// Generates a binary representation that can be used to reconstruct the state.
    ///
    /// See [State::deserialize] and [State::is_serializable].
    fn serialize(&self) -> (r: Option<Vec<u8>>)
        ensures
            match self.spec_serialize() {
                Some(bytes) => r matches Some(v) && v@ == bytes,
                None => r is None,
            },
    ;

    /// Applies an action by a given player to the state.
    fn apply(&mut self, player: Option<Player>, action: &Self::Action) -> (r: Result<(), String>)
        ensures
            match old(self).spec_apply(player, *action) {
                Some(next) => r is Ok && *final(self) == next,
                None => r is Err,
            },
    ;

    /// A clone of a state is that state.
    proof fn lemma_clone(a: Self, b: Self)
        requires
            cloned(a, b),
        ensures
            a == b,
    ;

    /// Reading a state's binary representation gives back the state.
    proof fn lemma_roundtrip(state: Self)
        requires
            state.spec_serialize() is Some,
        ensures
            Self::spec_deserialize(state.spec_serialize()->0) == Some(state),
    ;
}


impl<S: State> State for Box<S> {
    type ID = S::ID;
    type Nonce = S::Nonce;
    type Action = S::Action;

    open spec fn spec_version() -> Seq<u8> {
        S::spec_version()
    }

    open spec fn spec_deserialize(data: Seq<u8>) -> Option<Self> {
        match S::spec_deserialize(data) {
            Some(state) => Some(Box::new(state)),
            None => None,
        }
    }

    open spec fn spec_serialize(&self) -> Option<Seq<u8>> {
        (**self).spec_serialize()
    }

    open spec fn spec_apply(&self, player: Option<Player>, action: Self::Action) -> Option<Self> {
        match (**self).spec_apply(player, action) {
            Some(state) => Some(Box::new(state)),
            None => None,
        }
    }

    fn version() -> (v: &'static [u8]) {
        S::version()
    }

    fn challenge(address: &Address) -> (s: String) {
        S::challenge(address)
    }

    fn approval(player: &Address, subkey: &Address) -> (s: String) {
        S::approval(player, subkey)
    }

    fn deserialize(data: &[u8]) -> (r: Result<Self, String>) {
        match S::deserialize(data) {
            Ok(state) => Ok(Box::new(state)),
            Err(error) => Err(error),
        }
    }

    fn is_serializable(&self) -> (b: bool) {
        (**self).is_serializable()
    }

    fn serialize(&self) -> (r: Option<Vec<u8>>) {
        (**self).serialize()
    }

    fn apply(&mut self, player: Option<Player>, action: &Self::Action) -> (r: Result<(), String>) {
        (**self).apply(player, action)
    }

    proof fn lemma_clone(a: Self, b: Self) {
        S::lemma_clone(*a, *b);
    }

    proof fn lemma_roundtrip(state: Self) {
        S::lemma_roundtrip(*state);
    }
}

// ---------------------------------------------------------------------------
// Integer nonces, as little-endian bytes
// ---------------------------------------------------------------------------

impl Nonce for u8 {
    open spec fn spec_serialize(&self) -> Seq<u8> {
        le_bytes(*self as nat, 1)
    }

    open spec fn spec_deserialize(data: Seq<u8>) -> Option<(Self, nat)> {
        if data.len() < 1 {
            None
        } else {
            Some((le_value(data.take(1)) as u8, 1))
        }
    }

    open spec fn spec_next(&self) -> Self {
        if *self == u8::MAX { 0 } else { (*self + 1) as u8 }
    }

    fn deserialize(data: &mut &[u8]) -> (r: Result<Self, String>) {
        if data.len() < 1 {
            return Err("data.len() < size_of::<Self>()".to_owned());
        }
        let (head, rest) = data.split_at(1);
        let value = le_value_of(head);
        proof {
            lemma_le_value_bound(head@);
            reveal_with_fuel(pow256, 2);
            assert(pow256(1) == 256);
            assert(head@ =~= old(data)@.take(1));
            assert(rest@ =~= old(data)@.skip(1));
        }
        *data = rest;
        Ok(value as u8)
    }

    fn serialize(&self) -> (r: Vec<u8>) {
        le_bytes_vec(*self as u64, 1)
    }

    fn next(&self) -> (r: Self) {
        if *self == u8::MAX { 0 } else { *self + 1 }
    }

    proof fn lemma_clone(a: Self, b: Self) {
    }

    proof fn lemma_roundtrip(nonce: Self, rest: Seq<u8>) {
        reveal_with_fuel(pow256, 2);
        assert(pow256(1) == 256);
        lemma_le_value_of_bytes(nonce as nat, 1);
        assert((nonce.spec_serialize() + rest).take(1) =~= nonce.spec_serialize());
    }
}

impl Nonce for u16 {
    open spec fn spec_serialize(&self) -> Seq<u8> {
        le_bytes(*self as nat, 2)
    }

    open spec fn spec_deserialize(data: Seq<u8>) -> Option<(Self, nat)> {
        if data.len() < 2 {
            None
        } else {
            Some((le_value(data.take(2)) as u16, 2))
        }
    }

    open spec fn spec_next(&self) -> Self {
        if *self == u16::MAX { 0 } else { (*self + 1) as u16 }
    }

    fn deserialize(data: &mut &[u8]) -> (r: Result<Self, String>) {
        if data.len() < 2 {
            return Err("data.len() < size_of::<Self>()".to_owned());
        }
        let (head, rest) = data.split_at(2);
        let value = le_value_of(head);
        proof {
            lemma_le_value_bound(head@);
            reveal_with_fuel(pow256, 3);
            assert(pow256(2) == 65536);
            assert(head@ =~= old(data)@.take(2));
            assert(rest@ =~= old(data)@.skip(2));
        }
        *data = rest;
        Ok(value as u16)
    }

    fn serialize(&self) -> (r: Vec<u8>) {
        le_bytes_vec(*self as u64, 2)
    }

    fn next(&self) -> (r: Self) {
        if *self == u16::MAX { 0 } else { *self + 1 }
    }

    proof fn lemma_clone(a: Self, b: Self) {
    }

    proof fn lemma_roundtrip(nonce: Self, rest: Seq<u8>) {
        reveal_with_fuel(pow256, 3);
        assert(pow256(2) == 65536);
        lemma_le_value_of_bytes(nonce as nat, 2);
        assert((nonce.spec_serialize() + rest).take(2) =~= nonce.spec_serialize());
    }
}

impl Nonce for u32 {
    open spec fn spec_serialize(&self) -> Seq<u8> {
        le_bytes(*self as nat, 4)
    }

    open spec fn spec_deserialize(data: Seq<u8>) -> Option<(Self, nat)> {
        if data.len() < 4 {
            None
        } else {
            Some((le_value(data.take(4)) as u32, 4))
        }
    }

    open spec fn spec_next(&self) -> Self {
        if *self == u32::MAX { 0 } else { (*self + 1) as u32 }
    }

    fn deserialize(data: &mut &[u8]) -> (r: Result<Self, String>) {
        if data.len() < 4 {
            return Err("data.len() < size_of::<Self>()".to_owned());
        }
        let (head, rest) = data.split_at(4);
        let value = le_value_of(head);
        proof {
            lemma_le_value_bound(head@);
            reveal_with_fuel(pow256, 5);
            assert(pow256(4) == 4294967296);
            assert(head@ =~= old(data)@.take(4));
            assert(rest@ =~= old(data)@.skip(4));
        }
        *data = rest;
        Ok(value as u32)
    }

    fn serialize(&self) -> (r: Vec<u8>) {
        le_bytes_vec(*self as u64, 4)
    }

    fn next(&self) -> (r: Self) {
        if *self == u32::MAX { 0 } else { *self + 1 }
    }

    proof fn lemma_clone(a: Self, b: Self) {
    }

    proof fn lemma_roundtrip(nonce: Self, rest: Seq<u8>) {
        reveal_with_fuel(pow256, 5);
        assert(pow256(4) == 4294967296);
        lemma_le_value_of_bytes(nonce as nat, 4);
        assert((nonce.spec_serialize() + rest).take(4) =~= nonce.spec_serialize());
    }
}

impl Nonce for u64 {
    open spec fn spec_serialize(&self) -> Seq<u8> {
        le_bytes(*self as nat, 8)
    }

    open spec fn spec_deserialize(data: Seq<u8>) -> Option<(Self, nat)> {
        if data.len() < 8 {
            None
        } else {
            Some((le_value(data.take(8)) as u64, 8))
        }
    }

    open spec fn spec_next(&self) -> Self {
        if *self == u64::MAX { 0 } else { (*self + 1) as u64 }
    }

    fn deserialize(data: &mut &[u8]) -> (r: Result<Self, String>) {
        if data.len() < 8 {
            return Err("data.len() < size_of::<Self>()".to_owned());
        }
        let (head, rest) = data.split_at(8);
        let value = le_value_of(head);
        proof {
            lemma_le_value_bound(head@);
            reveal_with_fuel(pow256, 9);
            assert(pow256(8) == 18446744073709551616);
            assert(head@ =~= old(data)@.take(8));
            assert(rest@ =~= old(data)@.skip(8));
        }
        *data = rest;
        Ok(value as u64)
    }

    fn serialize(&self) -> (r: Vec<u8>) {
        le_bytes_vec(*self as u64, 8)
    }

    fn next(&self) -> (r: Self) {
        if *self == u64::MAX { 0 } else { *self + 1 }
    }

    proof fn lemma_clone(a: Self, b: Self) {
    }

    proof fn lemma_roundtrip(nonce: Self, rest: Seq<u8>) {
        reveal_with_fuel(pow256, 9);
        assert(pow256(8) == 18446744073709551616);
        lemma_le_value_of_bytes(nonce as nat, 8);
        assert((nonce.spec_serialize() + rest).take(8) =~= nonce.spec_serialize());
    }
}


/// The value of an integer of `modulus` values as an unsigned number: negative values wrap
/// around.
pub open spec fn twos_complement(v: int, modulus: int) -> nat {
    (if v < 0 { v + modulus } else { v }) as nat
}

/// The signed integer of `modulus` values whose two's complement is `v`.
pub open spec fn from_twos_complement(v: nat, modulus: int) -> int {
    if v >= modulus / 2 { v - modulus } else { v as int }
}

impl Nonce for i8 {
    open spec fn spec_serialize(&self) -> Seq<u8> {
        le_bytes(twos_complement(*self as int, 256), 1)
    }

    open spec fn spec_deserialize(data: Seq<u8>) -> Option<(Self, nat)> {
        if data.len() < 1 {
            None
        } else {
            Some((from_twos_complement(le_value(data.take(1)), 256) as i8, 1))
        }
    }

    open spec fn spec_next(&self) -> Self {
        if *self == i8::MAX { i8::MIN } else { (*self + 1) as i8 }
    }

    fn deserialize(data: &mut &[u8]) -> (r: Result<Self, String>) {
        if data.len() < 1 {
            return Err("data.len() < size_of::<Self>()".to_owned());
        }
        let (head, rest) = data.split_at(1);
        let value = le_value_of(head);
        proof {
            lemma_le_value_bound(head@);
            reveal_with_fuel(pow256, 2);
            assert(pow256(1) == 256);
            assert(head@ =~= old(data)@.take(1));
            assert(rest@ =~= old(data)@.skip(1));
        }
        #[verifier::truncate]
        let narrow = value as u8;
        let signed = #[verifier::truncate] (narrow as i8);
        proof {
            assert(narrow == value);
            assert(narrow >= 128 ==> signed as int == narrow as int - 256) by (bit_vector)
                requires signed == narrow as i8;
            assert(narrow < 128 ==> signed as int == narrow as int) by (bit_vector)
                requires signed == narrow as i8;
        }
        *data = rest;
        Ok(signed)
    }

    fn serialize(&self) -> (r: Vec<u8>) {
        let unsigned = *self as u8;
        let x = *self;
        proof {
            assert(x < 0 ==> unsigned as int == x as int + 256) by (bit_vector)
                requires unsigned == x as u8;
            assert(x >= 0 ==> unsigned as int == x as int) by (bit_vector)
                requires unsigned == x as u8;
        }
        le_bytes_vec(unsigned as u64, 1)
    }

    fn next(&self) -> (r: Self) {
        if *self == i8::MAX { i8::MIN } else { *self + 1 }
    }

    proof fn lemma_clone(a: Self, b: Self) {
    }

    proof fn lemma_roundtrip(nonce: Self, rest: Seq<u8>) {
        reveal_with_fuel(pow256, 2);
        assert(pow256(1) == 256);
        let t = twos_complement(nonce as int, 256);
        lemma_le_value_of_bytes(t as nat, 1);
        assert((nonce.spec_serialize() + rest).take(1) =~= nonce.spec_serialize());
    }
}

impl Nonce for i16 {
    open spec fn spec_serialize(&self) -> Seq<u8> {
        le_bytes(twos_complement(*self as int, 65536), 2)
    }

    open spec fn spec_deserialize(data: Seq<u8>) -> Option<(Self, nat)> {
        if data.len() < 2 {
            None
        } else {
            Some((from_twos_complement(le_value(data.take(2)), 65536) as i16, 2))
        }
    }

    open spec fn spec_next(&self) -> Self {
        if *self == i16::MAX { i16::MIN } else { (*self + 1) as i16 }
    }

    fn deserialize(data: &mut &[u8]) -> (r: Result<Self, String>) {
        if data.len() < 2 {
            return Err("data.len() < size_of::<Self>()".to_owned());
        }
        let (head, rest) = data.split_at(2);
        let value = le_value_of(head);
        proof {
            lemma_le_value_bound(head@);
            reveal_with_fuel(pow256, 3);
            assert(pow256(2) == 65536);
            assert(head@ =~= old(data)@.take(2));
            assert(rest@ =~= old(data)@.skip(2));
        }
        #[verifier::truncate]
        let narrow = value as u16;
        let signed = #[verifier::truncate] (narrow as i16);
        proof {
            assert(narrow == value);
            assert(narrow >= 32768 ==> signed as int == narrow as int - 65536) by (bit_vector)
                requires signed == narrow as i16;
            assert(narrow < 32768 ==> signed as int == narrow as int) by (bit_vector)
                requires signed == narrow as i16;
        }
        *data = rest;
        Ok(signed)
    }

    fn serialize(&self) -> (r: Vec<u8>) {
        let unsigned = *self as u16;
        let x = *self;
        proof {
            assert(x < 0 ==> unsigned as int == x as int + 65536) by (bit_vector)
                requires unsigned == x as u16;
            assert(x >= 0 ==> unsigned as int == x as int) by (bit_vector)
                requires unsigned == x as u16;
        }
        le_bytes_vec(unsigned as u64, 2)
    }

    fn next(&self) -> (r: Self) {
        if *self == i16::MAX { i16::MIN } else { *self + 1 }
    }

    proof fn lemma_clone(a: Self, b: Self) {
    }

    proof fn lemma_roundtrip(nonce: Self, rest: Seq<u8>) {
        reveal_with_fuel(pow256, 3);
        assert(pow256(2) == 65536);
        let t = twos_complement(nonce as int, 65536);
        lemma_le_value_of_bytes(t as nat, 2);
        assert((nonce.spec_serialize() + rest).take(2) =~= nonce.spec_serialize());
    }
}

impl Nonce for i32 {
    open spec fn spec_serialize(&self) -> Seq<u8> {
        le_bytes(twos_complement(*self as int, 4294967296), 4)
    }

    open spec fn spec_deserialize(data: Seq<u8>) -> Option<(Self, nat)> {
        if data.len() < 4 {
            None
        } else {
            Some((from_twos_complement(le_value(data.take(4)), 4294967296) as i32, 4))
        }
    }

    open spec fn spec_next(&self) -> Self {
        if *self == i32::MAX { i32::MIN } else { (*self + 1) as i32 }
    }

    fn deserialize(data: &mut &[u8]) -> (r: Result<Self, String>) {
        if data.len() < 4 {
            return Err("data.len() < size_of::<Self>()".to_owned());
        }
        let (head, rest) = data.split_at(4);
        let value = le_value_of(head);
        proof {
            lemma_le_value_bound(head@);
            reveal_with_fuel(pow256, 5);
            assert(pow256(4) == 4294967296);
            assert(head@ =~= old(data)@.take(4));
            assert(rest@ =~= old(data)@.skip(4));
        }
        #[verifier::truncate]
        let narrow = value as u32;
        let signed = #[verifier::truncate] (narrow as i32);
        proof {
            assert(narrow == value);
            assert(narrow >= 2147483648 ==> signed as int == narrow as int - 4294967296) by (bit_vector)
                requires signed == narrow as i32;
            assert(narrow < 2147483648 ==> signed as int == narrow as int) by (bit_vector)
                requires signed == narrow as i32;
        }
        *data = rest;
        Ok(signed)
    }

    fn serialize(&self) -> (r: Vec<u8>) {
        let unsigned = *self as u32;
        let x = *self;
        proof {
            assert(x < 0 ==> unsigned as int == x as int + 4294967296) by (bit_vector)
                requires unsigned == x as u32;
            assert(x >= 0 ==> unsigned as int == x as int) by (bit_vector)
                requires unsigned == x as u32;
        }
        le_bytes_vec(unsigned as u64, 4)
    }

    fn next(&self) -> (r: Self) {
        if *self == i32::MAX { i32::MIN } else { *self + 1 }
    }

    proof fn lemma_clone(a: Self, b: Self) {
    }

    proof fn lemma_roundtrip(nonce: Self, rest: Seq<u8>) {
        reveal_with_fuel(pow256, 5);
        assert(pow256(4) == 4294967296);
        let t = twos_complement(nonce as int, 4294967296);
        lemma_le_value_of_bytes(t as nat, 4);
        assert((nonce.spec_serialize() + rest).take(4) =~= nonce.spec_serialize());
    }
}

impl Nonce for i64 {
    open spec fn spec_serialize(&self) -> Seq<u8> {
        le_bytes(twos_complement(*self as int, 18446744073709551616), 8)
    }

    open spec fn spec_deserialize(data: Seq<u8>) -> Option<(Self, nat)> {
        if data.len() < 8 {
            None
        } else {
            Some((from_twos_complement(le_value(data.take(8)), 18446744073709551616) as i64, 8))
        }
    }

    open spec fn spec_next(&self) -> Self {
        if *self == i64::MAX { i64::MIN } else { (*self + 1) as i64 }
    }

    fn deserialize(data: &mut &[u8]) -> (r: Result<Self, String>) {
        if data.len() < 8 {
            return Err("data.len() < size_of::<Self>()".to_owned());
        }
        let (head, rest) = data.split_at(8);
        let value = le_value_of(head);
        proof {
            lemma_le_value_bound(head@);
            reveal_with_fuel(pow256, 9);
            assert(pow256(8) == 18446744073709551616);
            assert(head@ =~= old(data)@.take(8));
            assert(rest@ =~= old(data)@.skip(8));
        }
        #[verifier::truncate]
        let narrow = value as u64;
        let signed = #[verifier::truncate] (narrow as i64);
        proof {
            assert(narrow == value);
            assert(narrow >= 9223372036854775808 ==> signed as int == narrow as int - 18446744073709551616) by (bit_vector)
                requires signed == narrow as i64;
            assert(narrow < 9223372036854775808 ==> signed as int == narrow as int) by (bit_vector)
                requires signed == narrow as i64;
        }
        *data = rest;
        Ok(signed)
    }

    fn serialize(&self) -> (r: Vec<u8>) {
        let unsigned = *self as u64;
        let x = *self;
        proof {
            assert(x < 0 ==> unsigned as int == x as int + 18446744073709551616) by (bit_vector)
                requires unsigned == x as u64;
            assert(x >= 0 ==> unsigned as int == x as int) by (bit_vector)
                requires unsigned == x as u64;
        }
        le_bytes_vec(unsigned as u64, 8)
    }

    fn next(&self) -> (r: Self) {
        if *self == i64::MAX { i64::MIN } else { *self + 1 }
    }

    proof fn lemma_clone(a: Self, b: Self) {
    }

    proof fn lemma_roundtrip(nonce: Self, rest: Seq<u8>) {
        reveal_with_fuel(pow256, 9);
        assert(pow256(8) == 18446744073709551616);
        let t = twos_complement(nonce as int, 18446744073709551616);
        lemma_le_value_of_bytes(t as nat, 8);
        assert((nonce.spec_serialize() + rest).take(8) =~= nonce.spec_serialize());
    }
}


// ---------------------------------------------------------------------------
// Identifiers of sixteen bytes, in CBOR
// ---------------------------------------------------------------------------

/// The CBOR encoding that `serde_cbor::to_vec` gives a 16-byte array.
pub uninterp spec fn cbor_array16_bytes(id: Seq<u8>) -> Seq<u8>;

/// The 16-byte array that `serde_cbor` reads from the front of `data`, with the number of bytes
/// it reads, or `None` when `data` does not start with one.
pub uninterp spec fn cbor_array16_read(data: Seq<u8>) -> Option<([u8; 16], nat)>;

/// Calls `serde_cbor::to_vec` on a 16-byte array. Claimed of it: the encoding is named by
/// [cbor_array16_bytes]; and reading the encoding back, whatever follows it, gives the array
/// and stops at the end of the encoding (the deserializer reads one CBOR array of sixteen
/// integers and leaves the rest of its input). Writing into a vector cannot fail.
#[verifier::external_body]
pub(crate) fn cbor_encode_array16(id: &[u8; 16]) -> (r: Vec<u8>)
    ensures
        r@ == cbor_array16_bytes(id@),
        forall|rest: Seq<u8>| #[trigger] cbor_array16_read(r@ + rest) == Some((*id, r@.len())),
{
    serde_cbor::to_vec(id).unwrap()
}

/// Reads a 16-byte array with `serde_cbor::Deserializer::from_slice` and returns it with the
/// deserializer's `byte_offset`. The result is named by [cbor_array16_read]; the offset is
/// within `data`.
#[verifier::external_body]
pub(crate) fn cbor_decode_array16(data: &[u8]) -> (r: Option<([u8; 16], usize)>)
    ensures
        match r {
            Some((id, n)) => cbor_array16_read(data@) == Some((id, n as nat)) && n <= data@.len(),
            None => cbor_array16_read(data@) is None,
        },
{
    let mut deserializer = serde_cbor::Deserializer::from_slice(data);
    match <[u8; 16] as serde::Deserialize>::deserialize(&mut deserializer) {
        Ok(id) => Some((id, deserializer.byte_offset())),
        Err(_) => None,
    }
}

impl ID for [u8; 16] {
    open spec fn spec_serialize(&self) -> Seq<u8> {
        cbor_array16_bytes(self@)
    }

    open spec fn spec_deserialize(data: Seq<u8>) -> Option<(Self, nat)> {
        match cbor_array16_read(data) {
            Some((id, n)) => if n <= data.len() { Some((id, n)) } else { None },
            None => None,
        }
    }

    fn deserialize(data: &mut &[u8]) -> (r: Result<Self, String>) {
        match cbor_decode_array16(data) {
            Some((id, n)) => {
                let (_, rest) = data.split_at(n);
                *data = rest;
                Ok(id)
            },
            None => Err("invalid CBOR identifier".to_owned()),
        }
    }

    fn serialize(&self) -> (r: Vec<u8>) {
        cbor_encode_array16(self)
    }

    proof fn lemma_clone(a: Self, b: Self) {
        assert(a@ =~= b@);
    }
}

/// The next nonce of an integer nonce is one more, and the largest value wraps to the smallest.
pub proof fn lemma_integer_nonce_successor()
    ensures
        forall|n: u8| n < u8::MAX ==> #[trigger] Nonce::spec_next(&n) == n + 1,
        forall|n: u16| n < u16::MAX ==> #[trigger] Nonce::spec_next(&n) == n + 1,
        forall|n: u32| n < u32::MAX ==> #[trigger] Nonce::spec_next(&n) == n + 1,
        forall|n: u64| n < u64::MAX ==> #[trigger] Nonce::spec_next(&n) == n + 1,
        forall|n: i8| n < i8::MAX ==> #[trigger] Nonce::spec_next(&n) == n + 1,
        forall|n: i16| n < i16::MAX ==> #[trigger] Nonce::spec_next(&n) == n + 1,
        forall|n: i32| n < i32::MAX ==> #[trigger] Nonce::spec_next(&n) == n + 1,
        forall|n: i64| n < i64::MAX ==> #[trigger] Nonce::spec_next(&n) == n + 1,
        Nonce::spec_next(&u8::MAX) == 0u8,
        Nonce::spec_next(&u16::MAX) == 0u16,
        Nonce::spec_next(&u32::MAX) == 0u32,
        Nonce::spec_next(&u64::MAX) == 0u64,
        Nonce::spec_next(&i8::MAX) == i8::MIN,
        Nonce::spec_next(&i16::MAX) == i16::MIN,
        Nonce::spec_next(&i32::MAX) == i32::MIN,
        Nonce::spec_next(&i64::MAX) == i64::MIN,
{
}

} // verus!
