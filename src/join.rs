//! Joining a received half-swap and the counterparty's own half into one
//! transaction.
use vstd::prelude::*;
use crate::codec::{call_data, params_enc};
use crate::model::{Bytes32, ContractCall, PartialSwapData, Signature, SwapError, Transaction, TransferParams};

verus! {

/// A half carries at least one input, one output, and its mint and burn proofs.
pub open spec fn half_shaped(params: TransferParams, proofs: Seq<Vec<u8>>) -> bool {
    params.inputs@.len() >= 1 && params.outputs@.len() >= 1 && proofs.len() >= 2
}

/// The joint transfer: no clear inputs; the initiator's input and output come
/// first, the counterparty's second.
pub open spec fn joined_params(a: TransferParams, b: TransferParams, r: TransferParams) -> bool {
    &&& r.clear_inputs@.len() == 0
    &&& r.inputs@ == seq![a.inputs@[0], b.inputs@[0]]
    &&& r.outputs@ == seq![a.outputs@[0], b.outputs@[0]]
}

/// The joint proof list: both mint proofs, then both burn proofs, the
/// initiator's before the counterparty's in each pair.
pub open spec fn joined_proofs(a: Seq<Vec<u8>>, b: Seq<Vec<u8>>) -> Seq<Vec<u8>> {
    seq![a[0], b[0], a[1], b[1]]
}

/// Merges the received half `partial` with the counterparty's own half.
pub fn merge_halves(
    partial: PartialSwapData,
    own_params: TransferParams,
    own_proofs: Vec<Vec<u8>>,
) -> (r: Result<(TransferParams, Vec<Vec<u8>>), SwapError>)
    ensures
        r is Ok <==> half_shaped(partial.params, partial.proofs@) && half_shaped(own_params, own_proofs@),
        r is Err ==> r == Err::<(TransferParams, Vec<Vec<u8>>), SwapError>(SwapError::MalformedHalf),
        r is Ok ==> joined_params(partial.params, own_params, r->Ok_0.0),
        r is Ok ==> r->Ok_0.1@ == joined_proofs(partial.proofs@, own_proofs@),
{
    let PartialSwapData { params, proofs, .. } = partial;
    let TransferParams { inputs: mut a_in, outputs: mut a_out, .. } = params;
    let mut a_proofs = proofs;
    let TransferParams { inputs: mut b_in, outputs: mut b_out, .. } = own_params;
    let mut b_proofs = own_proofs;
    if a_in.len() < 1 || a_out.len() < 1 || a_proofs.len() < 2 || b_in.len() < 1 || b_out.len() < 1
        || b_proofs.len() < 2 {
        return Err(SwapError::MalformedHalf);
    }
    let ghost ap = a_proofs@;
    let ghost bp = b_proofs@;
    let a_mint = a_proofs.remove(0);
    let a_burn = a_proofs.remove(0);
    let b_mint = b_proofs.remove(0);
    let b_burn = b_proofs.remove(0);
    let inputs = vec![a_in.remove(0), b_in.remove(0)];
    let outputs = vec![a_out.remove(0), b_out.remove(0)];
    let joined = TransferParams { clear_inputs: Vec::new(), inputs, outputs };
    let all_proofs = vec![a_mint, b_mint, a_burn, b_burn];
    assert(all_proofs@ =~= joined_proofs(ap, bp));
    Ok((joined, all_proofs))
}

/// Joins a received half-swap with the counterparty's own half into a
/// transaction of one call, not yet signed: the call's payload is `selector`
/// followed by the joint transfer, and its proof set is the joint proof list.
pub fn join_halves(
    partial: PartialSwapData,
    own_params: TransferParams,
    own_proofs: Vec<Vec<u8>>,
    contract_id: Bytes32,
    selector: u8,
) -> (r: Result<Transaction, SwapError>)
    ensures
        r is Ok <==> half_shaped(partial.params, partial.proofs@) && half_shaped(own_params, own_proofs@),
        r is Err ==> r == Err::<Transaction, SwapError>(SwapError::MalformedHalf),
        r is Ok ==> ({
            let tx = r->Ok_0;
            &&& tx.calls@.len() == 1
            &&& tx.calls@[0].contract_id == contract_id
            &&& exists|joint: TransferParams|
                joined_params(partial.params, own_params, joint) && tx.calls@[0].data@ == seq![selector]
                    + params_enc(#[trigger] joint@)
            &&& tx.proofs@.len() == 1
            &&& tx.proofs@[0]@ == joined_proofs(partial.proofs@, own_proofs@)
            &&& tx.signatures@.len() == 0
        }),
{
    let ghost a = partial.params;
    let ghost ap = partial.proofs@;
    let (joint, proofs) = match merge_halves(partial, own_params, own_proofs) {
        Ok(m) => m,
        Err(e) => return Err(e),
    };
    let data = call_data(selector, &joint);
    let call = ContractCall { contract_id, data };
    let tx = Transaction { calls: vec![call], proofs: vec![proofs], signatures: Vec::new() };
    assert(joined_params(a, own_params, joint));
    Ok(tx)
}

/// Gives the transaction its one signature set: the joiner's signatures, made
/// with the keys of its own half, fill the first slots; the initiator's
/// signature is placed in front of them later.
pub fn attach_signatures(tx: &mut Transaction, sigs: Vec<Signature>)
    ensures
        final(tx).calls@ == old(tx).calls@,
        final(tx).proofs@ == old(tx).proofs@,
        final(tx).signatures@ == seq![sigs],
{
    tx.signatures = vec![sigs];
}

fn copy_words(v: &Vec<Bytes32>) -> (r: Vec<Bytes32>)
    ensures
        r@ == v@,
{
    let mut r: Vec<Bytes32> = Vec::new();
    let mut i: usize = 0;
    while i < v.len()
        invariant
            0 <= i <= v.len(),
            r@ == v@.take(i as int),
        decreases v.len() - i,
    {
        r.push(v[i]);
        i += 1;
        assert(r@ =~= v@.take(i as int));
    }
    assert(v@.take(i as int) =~= v@);
    r
}

/// The value and token blinds that the joiner's half must be built with:
/// those of the received half-swap, unchanged, so that the joiner's output
/// commits to what the initiator burns and the joiner's input to what the
/// initiator mints.
pub fn reused_blinds(partial: &PartialSwapData) -> (r: (Vec<Bytes32>, Vec<Bytes32>))
    ensures
        r.0@ == partial.value_blinds@,
        r.1@ == partial.token_blinds@,
{
    (copy_words(&partial.value_blinds), copy_words(&partial.token_blinds))
}

} // verus!
