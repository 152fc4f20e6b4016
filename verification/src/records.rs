//! Match records: checking the signed transcript of a tic-tac-toe match, played with
//! commit-reveal randomness, and finding its outcome.
//!
//! A transcript is a chain of signed messages, each naming the digest of the one before. The
//! matchmaker opens it with the match's identifier and the two players' accounts; each player
//! then names a subkey; then every move takes three messages: the mover commits to a seed and
//! names the move, the opponent replies with a seed, and the mover reveals the committed seed.
use vstd::prelude::*;
use crate::crypto::{keccak256, keccak256_spec, recover_digest, recover_digest_spec, Address};
use crate::game::{error_string, next_player_of, winner_of, Player, State};
use crate::proof_state::slices_equal;
use crate::utils::{copy20, le_u32_value, read_u32_usize};

verus! {

/// The model of a signed message: its contents, the address that signed it, the digest of the
/// message before it, and its own digest.
pub struct MessageView {
    pub message: Seq<u8>,
    pub author: Seq<u8>,
    pub parent: Seq<u8>,
    pub hash: Seq<u8>,
}

/// The signed message at the front of `buffer` and what follows it: 65 bytes of signature, the
/// 32-byte digest of the message before, the contents' length as four little-endian bytes, then
/// the contents. The signature is of the Keccak-256 digest of everything after it, and the
/// message's digest is that of all of it.
pub open spec fn parse_message(buffer: Seq<u8>) -> Option<(MessageView, Seq<u8>)> {
    if buffer.len() < 101 {
        None
    } else {
        let length = le_u32_value(buffer.skip(97));
        if buffer.len() < 101 + length {
            None
        } else {
            match recover_digest_spec(keccak256_spec(buffer.subrange(65, 101 + length)), buffer.take(65)) {
                None => None,
                Some(author) => Some(
                    (
                        MessageView {
                            message: buffer.subrange(101, 101 + length),
                            author,
                            parent: buffer.subrange(65, 97),
                            hash: keccak256_spec(buffer.take(101 + length)),
                        },
                        buffer.skip(101 + length),
                    ),
                ),
            }
        }
    }
}

/// A signed message.
pub struct Message {
    /// The contents.
    pub message: Vec<u8>,
    /// The address that signed the message.
    pub author: Address,
    /// The digest of the message before.
    pub parent: [u8; 32],
    /// The digest of the message.
    pub hash: [u8; 32],
}

impl View for Message {
    type V = MessageView;

    open spec fn view(&self) -> MessageView {
        MessageView {
            message: self.message@,
            author: self.author@,
            parent: self.parent@,
            hash: self.hash@,
        }
    }
}

impl Message {
    /// Consumes a signed message from the front of `buffer`.
    pub fn new(buffer: &mut &[u8]) -> (r: Result<Message, String>)
        ensures
            match parse_message(old(buffer)@) {
                Some((m, rest)) => r matches Ok(x) && x@ == m && final(buffer)@ == rest,
                None => r is Err,
            },
            r is Err ==> final(buffer)@ == old(buffer)@,
    {
        let data: &[u8] = *buffer;
        if data.len() < 101 {
            return Err("buffer.len() < 65 + 32 + 4".to_owned());
        }
        let (_, tail) = data.split_at(97);
        let mut cur = tail;
        let length = read_u32_usize(&mut cur)?;
        proof {
            assert(tail@ == data@.skip(97));
        }
        if data.len() - 101 < length {
            return Err("buffer.len() < 65 + 32 + 4 + length".to_owned());
        }
        let end = 101 + length;
        let (whole, rest) = data.split_at(end);
        let (signature, signed) = whole.split_at(65);
        let (parent, _) = signed.split_at(32);
        let (_, message) = signed.split_at(36);
        proof {
            assert(signature@ == data@.take(65));
            assert(signed@ =~= data@.subrange(65, end as int));
            assert(parent@ =~= data@.subrange(65, 97));
            assert(message@ =~= data@.subrange(101, end as int));
            assert(whole@ == data@.take(end as int));
        }
        let author = recover_digest(&keccak256(signed), signature)?;
        let hash = keccak256(whole);
        *buffer = rest;
        Ok(
            Message {
                message: vstd::slice::slice_to_vec(message),
                author,
                parent: crate::utils::copy32(parent),
                hash,
            },
        )
    }
}

/// The outcome of a finished match.
#[derive(PartialEq, Eq, Structural, Clone, Copy, Debug)]
pub enum Outcome {
    /// Nobody won and no move is left.
    Draw,
    /// The given player won.
    Won(Player),
}

/// The record of a checked match: the two players' accounts and the outcome.
pub struct MatchRecord {
    /// The first and the second player's accounts.
    pub accounts: [Address; 2],
    /// How the match ended.
    pub outcome: Outcome,
}

/// The model of a match record.
pub struct MatchRecordView {
    pub accounts: Seq<Seq<u8>>,
    pub outcome: Outcome,
}

impl View for MatchRecord {
    type V = MatchRecordView;

    open spec fn view(&self) -> MatchRecordView {
        MatchRecordView { accounts: seq![self.accounts[0]@, self.accounts[1]@], outcome: self.outcome }
    }
}

/// The address of the matchmaker, who opens every transcript.
pub open spec fn matchmaker() -> Seq<u8> {
    seq![
        0x37u8, 0x35, 0x13, 0xE3, 0x6c, 0x78, 0x04, 0x4A, 0x08, 0xA3, 0x5D, 0x23, 0x7C, 0x94, 0xEc,
        0x49, 0xF3, 0x62, 0xe3, 0x72,
    ]
}

/// The game after the moves at the front of `buffer`, each three messages chained from
/// `parent`: the mover's commitment to a seed, followed by the move, signed with the mover's
/// subkey; the opponent's sixteen-byte seed; and the mover's sixteen-byte committed seed, whose
/// digest is the commitment. `None` when a message is missing, malformed, out of the chain or
/// signed by another key, a seed does not match its commitment, or a move is refused.
pub open spec fn play(state: State, parent: Seq<u8>, subkeys: Seq<Seq<u8>>, buffer: Seq<u8>) -> Option<State>
    decreases buffer.len(),
{
    if buffer.len() == 0 {
        Some(state)
    } else {
        match next_player_of(state.spec_nonce(), state.spec_board()) {
            None => None,
            Some(p) => {
                let (mover, opponent) = if p == Player::One {
                    (subkeys[0], subkeys[1])
                } else {
                    (subkeys[1], subkeys[0])
                };
                match parse_message(buffer) {
                    None => None,
                    Some((m1, r1)) => if m1.author != mover || m1.parent != parent
                        || m1.message.len() < 32 {
                        None
                    } else {
                        match parse_message(r1) {
                            None => None,
                            Some((m2, r2)) => if m2.author != opponent || m2.parent != m1.hash
                                || m2.message.len() != 16 {
                                None
                            } else {
                                match parse_message(r2) {
                                    None => None,
                                    Some((m3, r3)) => if m3.author != mover || m3.parent
                                        != m2.hash || m3.message.len() != 16 || keccak256_spec(
                                        m3.message,
                                    ) != m1.message.take(32) {
                                        None
                                    } else {
                                        match state.spec_next(p, m1.message.skip(32)) {
                                            Err(_) => None,
                                            Ok(next) => play(next, m3.hash, subkeys, r3),
                                        }
                                    },
                                }
                            },
                        }
                    },
                }
            },
        }
    }
}

/// The record of the match that `proof` transcribes, if it checks: the matchmaker opens the
/// chain with a 56-byte message (the match's identifier, then the two accounts), each player's
/// account names a 20-byte subkey in turn, the moves follow, and the match is finished (won, or
/// drawn with no move left).
pub open spec fn check_match(proof: Seq<u8>) -> Option<MatchRecordView> {
    match parse_message(proof) {
        None => None,
        Some((m0, r0)) => if m0.author != matchmaker() || m0.parent != Seq::new(32, |i: int| 0u8)
            || m0.message.len() != 56 {
            None
        } else {
            let a1 = m0.message.subrange(16, 36);
            let a2 = m0.message.subrange(36, 56);
            match parse_message(r0) {
                None => None,
                Some((m1, r1)) => if m1.author != a1 || m1.parent != m0.hash || m1.message.len()
                    != 20 {
                    None
                } else {
                    match parse_message(r1) {
                        None => None,
                        Some((m2, r2)) => if m2.author != a2 || m2.parent != m1.hash
                            || m2.message.len() != 20 {
                            None
                        } else {
                            match play(
                                State::spec_new(),
                                m2.hash,
                                seq![m1.message, m2.message],
                                r2,
                            ) {
                                None => None,
                                Some(last) => match winner_of(last.spec_board()) {
                                    Some(p) => Some(
                                        MatchRecordView { accounts: seq![a1, a2], outcome: Outcome::Won(p) },
                                    ),
                                    None => if next_player_of(
                                        last.spec_nonce(),
                                        last.spec_board(),
                                    ) is None {
                                        Some(
                                            MatchRecordView {
                                                accounts: seq![a1, a2],
                                                outcome: Outcome::Draw,
                                            },
                                        )
                                    } else {
                                        None
                                    },
                                },
                            }
                        },
                    }
                },
            }
        },
    }
}


/// The bytes of `a` and `b` combined pairwise by exclusive or.
fn xor_bytes(a: &Vec<u8>, b: &Vec<u8>) -> (r: Vec<u8>)
    requires
        a@.len() == b@.len(),
    ensures
        r@.len() == a@.len(),
{
    let mut r: Vec<u8> = Vec::new();
    let mut i: usize = 0;
    while i < a.len()
        invariant
            i <= a@.len(),
            a@.len() == b@.len(),
            r@.len() == i,
        decreases a@.len() - i,
    {
        r.push(a[i] ^ b[i]);
        i = i + 1;
    }
    r
}

/// Plays the moves at the front of `buffer` from `state`, each chained from `parent`, checking
/// them as [play] says.
fn play_moves(state: State, parent: [u8; 32], first: &Vec<u8>, second: &Vec<u8>, buffer: &[u8]) -> (r: Result<State, String>)
    ensures
        match play(state, parent@, seq![first@, second@], buffer@) {
            Some(last) => r matches Ok(s) && s == last,
            None => r is Err,
        },
{
    let ghost keys = seq![first@, second@];
    let ghost target = play(state, parent@, keys, buffer@);
    let mut now = state;
    let mut last_hash = parent;
    let mut cur = buffer;
    while cur.len() != 0
        invariant
            keys == seq![first@, second@],
            target == play(state, parent@, keys, buffer@),
            play(now, last_hash@, keys, cur@) == target,
        decreases cur@.len(),
    {
        let p = match now.next_player() {
            Some(p) => p,
            None => return Err("the move is not signed by the player to move".to_owned()),
        };
        let (mover, opponent) = match p {
            Player::One => (first, second),
            Player::Two => (second, first),
        };
        let m1 = Message::new(&mut cur)?;
        if !slices_equal(m1.author.as_slice(), mover.as_slice()) {
            return Err("the move is not signed by the player to move".to_owned());
        }
        if !slices_equal(m1.parent.as_slice(), last_hash.as_slice()) {
            return Err("the message does not follow the one before".to_owned());
        }
        if m1.message.len() < 32 {
            return Err("message.message.len() < 32".to_owned());
        }
        let m2 = Message::new(&mut cur)?;
        if !slices_equal(m2.author.as_slice(), opponent.as_slice()) {
            return Err("the reply is not signed by the opponent".to_owned());
        }
        if !slices_equal(m2.parent.as_slice(), m1.hash.as_slice()) {
            return Err("the message does not follow the one before".to_owned());
        }
        if m2.message.len() != 16 {
            return Err("message.message.len() != 16".to_owned());
        }
        let m3 = Message::new(&mut cur)?;
        if !slices_equal(m3.author.as_slice(), mover.as_slice()) {
            return Err("the move is not signed by the player to move".to_owned());
        }
        if !slices_equal(m3.parent.as_slice(), m2.hash.as_slice()) {
            return Err("the message does not follow the one before".to_owned());
        }
        if m3.message.len() != 16 {
            return Err("message.message.len() != 16".to_owned());
        }
        let (commit, action) = m1.message.as_slice().split_at(32);
        let digest = keccak256(m3.message.as_slice());
        if !slices_equal(digest.as_slice(), commit) {
            return Err("the revealed seed does not match its commitment".to_owned());
        }
        let random = xor_bytes(&m2.message, &m3.message);
        now = match now.next(p, action, random.as_slice()) {
            Ok(next) => next,
            Err(code) => return Err(error_string(code).to_owned()),
        };
        last_hash = m3.hash;
    }
    Ok(now)
}

/// Checks the signed transcript of a match and gives its record: the players' accounts and the
/// outcome.
pub fn prove(proof: &[u8]) -> (r: Result<MatchRecord, String>)
    ensures
        match check_match(proof@) {
            Some(v) => r matches Ok(x) && x@ == v,
            None => r is Err,
        },
{
    let matcher: [u8; 20] = [
        0x37, 0x35, 0x13, 0xE3, 0x6c, 0x78, 0x04, 0x4A, 0x08, 0xA3, 0x5D, 0x23, 0x7C, 0x94, 0xEc,
        0x49, 0xF3, 0x62, 0xe3, 0x72,
    ];
    let zero = [0u8; 32];
    proof {
        assert(matcher@ =~= matchmaker());
        assert(zero@ =~= Seq::new(32, |i: int| 0u8));
    }
    let mut cur = proof;
    let m0 = Message::new(&mut cur)?;
    if !slices_equal(m0.author.as_slice(), matcher.as_slice()) {
        return Err("the first message is not the matchmaker's".to_owned());
    }
    if !slices_equal(m0.parent.as_slice(), zero.as_slice()) {
        return Err("the first message follows another".to_owned());
    }
    if m0.message.len() != 56 {
        return Err("message.message.len() != 16 + 2 * 20".to_owned());
    }
    let account_1 = copy20(&m0.message.as_slice()[16..36]);
    let account_2 = copy20(&m0.message.as_slice()[36..56]);
    proof {
        assert(account_1@ =~= m0.message@.subrange(16, 36));
        assert(account_2@ =~= m0.message@.subrange(36, 56));
    }
    let m1 = Message::new(&mut cur)?;
    if !slices_equal(m1.author.as_slice(), account_1.as_slice()) {
        return Err("the subkey is not named by the first account".to_owned());
    }
    if !slices_equal(m1.parent.as_slice(), m0.hash.as_slice()) {
        return Err("the message does not follow the one before".to_owned());
    }
    if m1.message.len() != 20 {
        return Err("message.message.len() != 20".to_owned());
    }
    let m2 = Message::new(&mut cur)?;
    if !slices_equal(m2.author.as_slice(), account_2.as_slice()) {
        return Err("the subkey is not named by the second account".to_owned());
    }
    if !slices_equal(m2.parent.as_slice(), m1.hash.as_slice()) {
        return Err("the message does not follow the one before".to_owned());
    }
    if m2.message.len() != 20 {
        return Err("message.message.len() != 20".to_owned());
    }
    let last = play_moves(State::new(), m2.hash, &m1.message, &m2.message, cur)?;
    let outcome = match last.winner() {
        Some(p) => Outcome::Won(p),
        None => if last.next_player().is_none() {
            Outcome::Draw
        } else {
            return Err("match not finished".to_owned());
        },
    };
    let record = MatchRecord { accounts: [account_1, account_2], outcome };
    proof {
        assert(record@.accounts =~= seq![account_1@, account_2@]);
    }
    Ok(record)
}


/// What a finished match adds to a player's record.
#[derive(PartialEq, Eq, Structural, Clone, Copy, Debug)]
pub enum Tally {
    /// One more win.
    Win,
    /// One more draw.
    Draw,
    /// One more loss.
    Loss,
}

/// What a match adds to each player's record: a draw to both, or a win to the winner and a
/// loss to the other.
pub fn tallies(outcome: Outcome) -> (r: [Tally; 2])
    ensures
        outcome == Outcome::Draw ==> r[0] == Tally::Draw && r[1] == Tally::Draw,
        outcome == Outcome::Won(Player::One) ==> r[0] == Tally::Win && r[1] == Tally::Loss,
        outcome == Outcome::Won(Player::Two) ==> r[0] == Tally::Loss && r[1] == Tally::Win,
{
    match outcome {
        Outcome::Draw => [Tally::Draw, Tally::Draw],
        Outcome::Won(Player::One) => [Tally::Win, Tally::Loss],
        Outcome::Won(Player::Two) => [Tally::Loss, Tally::Win],
    }
}

} // verus!
