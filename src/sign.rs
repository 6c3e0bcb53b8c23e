//! Placing a party's signature into a swap transaction.
use vstd::prelude::*;
use crate::inspect::{first_some, is_first_some};
use crate::model::{Bytes32, Signature, SwapError, Transaction, TransferParams};

verus! {

/// `new` is `old` with `sig` placed in front of the first call's signature
/// set, all else unchanged.
pub open spec fn signed(old_tx: Transaction, sig: Signature, new_tx: Transaction) -> bool {
    &&& new_tx.calls@ == old_tx.calls@
    &&& new_tx.proofs@ == old_tx.proofs@
    &&& new_tx.signatures@.len() == old_tx.signatures@.len()
    &&& new_tx.signatures@[0]@ == old_tx.signatures@[0]@.insert(0, sig)
    &&& forall|k: int|
        1 <= k < old_tx.signatures@.len() ==> #[trigger] new_tx.signatures@[k] == old_tx.signatures@[k]
}

/// Places `sig` at the front of the first call's signature set: the slot of
/// the initiator's input, which comes first. Fails with `WrongCallCount`,
/// leaving the transaction unchanged, where it holds no signature set.
pub fn place_signature(tx: &mut Transaction, sig: Signature) -> (r: Result<(), SwapError>)
    ensures
        r is Ok <==> old(tx).signatures@.len() >= 1,
        r is Ok ==> signed(*old(tx), sig, *final(tx)),
        r is Err ==> r == Err::<(), SwapError>(SwapError::WrongCallCount) && *final(tx) == *old(tx),
{
    if tx.signatures.len() == 0 {
        return Err(SwapError::WrongCallCount);
    }
    let mut first = tx.signatures.remove(0);
    first.insert(0, sig);
    tx.signatures.insert(0, first);
    Ok(())
}

/// After the joiner signs for its own input and the initiator then places its
/// signature, the signature set lists the initiator's signature first and the
/// joiner's second, in the order of the joint inputs.
pub proof fn lemma_signature_slots_follow_inputs(
    joined: Transaction,
    joiner_sig: Signature,
    initiator_sig: Signature,
    completed: Transaction,
)
    requires
        joined.signatures@.len() == 1,
        joined.signatures@[0]@ == seq![joiner_sig],
        signed(joined, initiator_sig, completed),
    ensures
        completed.signatures@.len() == 1,
        completed.signatures@[0]@ == seq![initiator_sig, joiner_sig],
        completed.signatures@[0]@[0] == initiator_sig,
{
    assert(completed.signatures@[0]@ =~= seq![initiator_sig, joiner_sig]);
}

/// The key the signer signs with. `secrets[j]` is the secret key carried in
/// the memo of the first output's note where the wallet's key `j` opens that
/// note, and `None` where it does not; the first key that opens it is taken.
/// Fails with `WrongInputOutputCount` where the transfer has no output, and
/// with `DecryptionFailure` where no key opens the first output.
pub fn signing_key(p: &TransferParams, secrets: &Vec<Option<Bytes32>>) -> (r: Result<Bytes32, SwapError>)
    ensures
        p.outputs@.len() == 0 ==> r == Err::<Bytes32, SwapError>(SwapError::WrongInputOutputCount),
        p.outputs@.len() > 0 ==> match r {
            Ok(k) => exists|j: int| is_first_some(secrets@, j) && secrets@[j] == Some(k),
            Err(e) => e == SwapError::DecryptionFailure && forall|j: int|
                0 <= j < secrets@.len() ==> (#[trigger] secrets@[j]) is None,
        },
{
    if p.outputs.len() == 0 {
        return Err(SwapError::WrongInputOutputCount);
    }
    match first_some(secrets) {
        Some(j) => match secrets[j] {
            Some(k) => Ok(k),
            None => Err(SwapError::DecryptionFailure),
        },
        None => Err(SwapError::DecryptionFailure),
    }
}

} // verus!
