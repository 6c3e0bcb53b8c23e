//! The data that the swap protocol works on: 32-byte field elements and curve
//! points held as plain words, coins, notes, transfer parameters, half-swaps
//! and transactions.
use vstd::prelude::*;

verus! {

/// A 32-byte value (field element, scalar or compressed point) as four
/// little-endian 64-bit limbs, lowest first.
#[derive(Clone, Copy, Debug, PartialEq, Eq, Structural)]
pub struct Bytes32 {
    pub l0: u64,
    pub l1: u64,
    pub l2: u64,
    pub l3: u64,
}

/// The all-zero value; as a spend-hook it marks a coin that no contract hooks.
pub open spec fn zero_spec() -> Bytes32 {
    Bytes32 { l0: 0, l1: 0, l2: 0, l3: 0 }
}

impl Bytes32 {
    pub fn zero() -> (r: Bytes32)
        ensures
            r == zero_spec(),
    {
        Bytes32 { l0: 0, l1: 0, l2: 0, l3: 0 }
    }
}

/// An owned, unspent coin as the wallet's coin store records it.
#[derive(Clone, Copy, Debug, PartialEq, Eq, Structural)]
pub struct Coin {
    pub value: u64,
    pub token_id: Bytes32,
    pub spend_hook: Bytes32,
    pub serial: Bytes32,
    pub coin_blind: Bytes32,
    pub value_blind: Bytes32,
    pub token_blind: Bytes32,
}

/// A shielded input of a transfer.
#[derive(Clone, Copy, Debug, PartialEq, Eq, Structural)]
pub struct Input {
    pub value_commit: Bytes32,
    pub token_commit: Bytes32,
    pub nullifier: Bytes32,
    pub merkle_root: Bytes32,
    pub spend_hook: Bytes32,
    pub user_data_enc: Bytes32,
    pub signature_public: Bytes32,
}

/// A non-shielded input of a transfer.
#[derive(Clone, Copy, Debug, PartialEq, Eq, Structural)]
pub struct ClearInput {
    pub value: u64,
    pub token_id: Bytes32,
    pub value_blind: Bytes32,
    pub token_blind: Bytes32,
    pub signature_public: Bytes32,
}

/// A shielded output of a transfer, with its encrypted note.
#[derive(Clone, Debug)]
pub struct Output {
    pub value_commit: Bytes32,
    pub token_commit: Bytes32,
    pub coin: Bytes32,
    pub ciphertext: Vec<u8>,
    pub ephem_public: Bytes32,
}

/// The public payload of a transfer call.
#[derive(Clone, Debug)]
pub struct TransferParams {
    pub clear_inputs: Vec<ClearInput>,
    pub inputs: Vec<Input>,
    pub outputs: Vec<Output>,
}

/// The contents of a decrypted note. The memo carries the encoded secret key
/// that later signs for the input paired with this output.
#[derive(Clone, Debug)]
pub struct Note {
    pub value: u64,
    pub token_id: Bytes32,
    pub serial: Bytes32,
    pub coin_blind: Bytes32,
    pub value_blind: Bytes32,
    pub token_blind: Bytes32,
    pub memo: Vec<u8>,
}

/// What an inspector recomputes from a decrypted note: the coin hash and the
/// value and token commitments.
#[derive(Clone, Copy, Debug, PartialEq, Eq, Structural)]
pub struct Recomputed {
    pub coin: Bytes32,
    pub value_commit: Bytes32,
    pub token_commit: Bytes32,
}

/// One half of a swap, as its initiator sends it to the counterparty.
/// `proofs` holds the half's mint proof, then its burn proof. The blinds are
/// the ones the counterparty must reuse unchanged.
#[derive(Debug)]
pub struct PartialSwapData {
    pub params: TransferParams,
    pub proofs: Vec<Vec<u8>>,
    pub value_pair: (u64, u64),
    pub token_pair: (Bytes32, Bytes32),
    pub value_blinds: Vec<Bytes32>,
    pub token_blinds: Vec<Bytes32>,
}

/// A Schnorr signature: the commitment point and the response scalar.
#[derive(Clone, Copy, Debug, PartialEq, Eq, Structural)]
pub struct Signature {
    pub commit: Bytes32,
    pub response: Bytes32,
}

/// One contract call: the contract and its selector-prefixed payload.
#[derive(Clone, Debug)]
pub struct ContractCall {
    pub contract_id: Bytes32,
    pub data: Vec<u8>,
}

/// A transaction: its calls, one proof set per call and one signature set
/// per call.
#[derive(Clone, Debug)]
pub struct Transaction {
    pub calls: Vec<ContractCall>,
    pub proofs: Vec<Vec<Vec<u8>>>,
    pub signatures: Vec<Vec<Signature>>,
}

/// Why a swap operation stopped.
#[derive(Clone, Copy, Debug, PartialEq, Eq, Structural)]
pub enum SwapError {
    /// No unspent, unhooked coin of the asked value and token.
    NoMatchingCoin,
    /// The contract publishes no circuit of the asked name.
    CircuitNotFound,
    /// The bytes decode as neither a transaction nor a half-swap.
    DecodeFailure,
    /// The bytes decode as a half-swap, whose inspection is not offered.
    UnsupportedHalfInspection,
    /// A half-swap lacks the input, output or proofs that a half carries.
    MalformedHalf,
    /// A swap transaction has exactly one contract call.
    WrongCallCount,
    /// A swap transaction has exactly two inputs and two outputs.
    WrongInputOutputCount,
    /// No local secret key opens the note that was to be opened.
    DecryptionFailure,
    /// A recomputed hash or commitment differs from the declared one.
    CommitmentMismatch,
}

} // verus!
