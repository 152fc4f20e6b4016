use vstd::prelude::*;

pub mod utils;
pub mod crypto;
pub mod merkle;
pub mod traits;
pub mod action;
pub mod proof_state;
pub mod error;
pub mod authenticated;
pub mod game;
pub mod store;
pub mod version;
pub mod records;
pub mod tester;

pub use crate::action::{PlayerAction, ProofAction};
pub use crate::authenticated::{Diff, Proof, RootProof};
pub use crate::proof_state::ProofState;
pub use crate::traits::{Action, Nonce, Player, State, ID};

verus! {
} // verus!
