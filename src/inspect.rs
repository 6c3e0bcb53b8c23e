//! Inspecting a joint swap transaction: its shape, the note that a local key
//! opens, and the agreement of recomputed commitments with the declared ones
//! and with the paired input.
use vstd::prelude::*;
use crate::codec::{decode_params, params_enc};
use crate::join::joined_params;
use crate::wire::{decode_partial, decode_transaction, partial_enc, tx_enc, PartialView, TxView};
use crate::model::{PartialSwapData, Recomputed, SwapError, Transaction, TransferParams};

verus! {

/// The decoding policy: bytes that decode as a transaction are inspected as
/// one; otherwise bytes that decode as a half-swap are refused as unsupported;
/// otherwise they are undecodable.
pub fn choose_shape(tx: Option<Transaction>, half: Option<PartialSwapData>) -> (r: Result<Transaction, SwapError>)
    ensures
        tx is Some ==> r == Ok::<Transaction, SwapError>(tx->Some_0),
        tx is None && half is Some ==> r == Err::<Transaction, SwapError>(SwapError::UnsupportedHalfInspection),
        tx is None && half is None ==> r == Err::<Transaction, SwapError>(SwapError::DecodeFailure),
{
    match tx {
        Some(t) => Ok(t),
        None => match half {
            Some(_) => Err(SwapError::UnsupportedHalfInspection),
            None => Err(SwapError::DecodeFailure),
        },
    }
}

/// Decodes bytes of unknown shape under the policy of `choose_shape`: as a
/// transaction if they are one, else refused as a half-swap if they are one,
/// else undecodable.
pub fn decode_swap(b: &Vec<u8>) -> (r: Result<Transaction, SwapError>)
    ensures
        r is Ok ==> tx_enc(r->Ok_0@) == b@,
        forall|t: TxView| #[trigger] tx_enc(t) == b@ ==> r is Ok && r->Ok_0@ == t,
        r == Err::<Transaction, SwapError>(SwapError::UnsupportedHalfInspection) <==> (forall|t: TxView|
            #[trigger] tx_enc(t) != b@) && (exists|q: PartialView| #[trigger] partial_enc(q) == b@),
        r == Err::<Transaction, SwapError>(SwapError::DecodeFailure) <==> (forall|t: TxView|
            #[trigger] tx_enc(t) != b@) && (forall|q: PartialView| #[trigger] partial_enc(q) != b@),
{
    let tx = decode_transaction(b);
    let half = decode_partial(b);
    proof {
        if tx is Some {
            assert(tx_enc(tx->Some_0@) == b@);
        }
        if half is Some {
            assert(partial_enc(half->Some_0@) == b@);
        }
    }
    choose_shape(tx, half)
}

/// The transfer that the one call of a swap transaction carries behind its
/// function selector.
pub fn swap_params(tx: &Transaction) -> (r: Result<TransferParams, SwapError>)
    ensures
        tx.calls@.len() != 1 ==> r == Err::<TransferParams, SwapError>(SwapError::WrongCallCount),
        tx.calls@.len() == 1 ==> ({
            let d = tx.calls@[0].data@;
            &&& r is Ok ==> d.len() >= 1 && params_enc(r->Ok_0@) == d.subrange(1, d.len() as int)
            &&& r is Err ==> r == Err::<TransferParams, SwapError>(SwapError::DecodeFailure)
            &&& forall|p| d.len() >= 1 && #[trigger] params_enc(p) == d.subrange(1, d.len() as int)
                ==> r is Ok && r->Ok_0@ == p
        }),
{
    if tx.calls.len() != 1 {
        return Err(SwapError::WrongCallCount);
    }
    let data = &tx.calls[0].data;
    if data.len() < 1 {
        return Err(SwapError::DecodeFailure);
    }
    match decode_params(data, 1) {
        Some(p) => Ok(p),
        None => Err(SwapError::DecodeFailure),
    }
}

/// The index of the first present entry, if any.
pub open spec fn is_first_some<T>(v: Seq<Option<T>>, i: int) -> bool {
    0 <= i < v.len() && v[i] is Some && forall|j: int| 0 <= j < i ==> (#[trigger] v[j]) is None
}

/// Finds the first present entry: the first local key that opens a note,
/// or the first output that some local key opens.
pub fn first_some<T>(v: &Vec<Option<T>>) -> (r: Option<usize>)
    ensures
        match r {
            Some(i) => is_first_some(v@, i as int),
            None => forall|j: int| 0 <= j < v@.len() ==> (#[trigger] v@[j]) is None,
        },
{
    let mut i: usize = 0;
    while i < v.len()
        invariant
            0 <= i <= v.len(),
            forall|j: int| 0 <= j < i ==> (#[trigger] v@[j]) is None,
        decreases v.len() - i,
    {
        if v[i].is_some() {
            return Some(i);
        }
        i += 1;
    }
    None
}

/// The output paired with input `1 - i`: each party's minted output commits
/// to what the other party burns.
pub open spec fn output_consistent(p: TransferParams, i: int, rc: Recomputed) -> bool {
    &&& rc.coin == p.outputs@[i].coin
    &&& rc.value_commit == p.outputs@[i].value_commit
    &&& rc.token_commit == p.outputs@[i].token_commit
    &&& rc.value_commit == p.inputs@[1 - i].value_commit
    &&& rc.token_commit == p.inputs@[1 - i].token_commit
}

pub open spec fn two_by_two(p: TransferParams) -> bool {
    p.inputs@.len() == 2 && p.outputs@.len() == 2
}

/// Output `i` passes where no local key opened it, or where what its note
/// recomputes to agrees with it and with its paired input.
pub open spec fn opened_ok(p: TransferParams, opened: Seq<Option<Recomputed>>, i: int) -> bool {
    opened[i] is Some ==> output_consistent(p, i, opened[i]->Some_0)
}

/// The first of the two outputs that a local key opened.
pub open spec fn first_opened(opened: Seq<Option<Recomputed>>) -> usize {
    if opened[0] is Some {
        0
    } else {
        1
    }
}

/// What inspecting a joint transfer yields. `opened[i]` is what was recomputed
/// from output `i`'s note under the first local key that opened it, or `None`
/// where no local key opens it. Every opened output is checked; the result
/// names the first of them.
pub open spec fn inspect_spec(p: TransferParams, opened: Seq<Option<Recomputed>>) -> Result<usize, SwapError> {
    if !two_by_two(p) {
        Err(SwapError::WrongInputOutputCount)
    } else if opened[0] is None && opened[1] is None {
        Err(SwapError::DecryptionFailure)
    } else if !(opened_ok(p, opened, 0) && opened_ok(p, opened, 1)) {
        Err(SwapError::CommitmentMismatch)
    } else {
        Ok(first_opened(opened))
    }
}

fn output_ok(p: &TransferParams, opened: &Vec<Option<Recomputed>>, i: usize) -> (r: bool)
    requires
        two_by_two(*p),
        opened@.len() == 2,
        i < 2,
    ensures
        r == opened_ok(*p, opened@, i as int),
{
    match &opened[i] {
        None => true,
        Some(rc) => {
            let out = &p.outputs[i];
            let paired = &p.inputs[1 - i];
            rc.coin == out.coin && rc.value_commit == out.value_commit && rc.token_commit
                == out.token_commit && rc.value_commit == paired.value_commit && rc.token_commit
                == paired.token_commit
        },
    }
}

/// Checks a joint transfer against what was recomputed from its notes: every
/// output that a local key opened must agree with its declared coin and
/// commitments and with the commitments of its paired input. Returns the
/// index of the first opened output. Signatures and proofs are not checked
/// here.
pub fn inspect_params(p: &TransferParams, opened: &Vec<Option<Recomputed>>) -> (r: Result<usize, SwapError>)
    requires
        opened@.len() == p.outputs@.len(),
    ensures
        r == inspect_spec(*p, opened@),
{
    if p.inputs.len() != 2 || p.outputs.len() != 2 {
        return Err(SwapError::WrongInputOutputCount);
    }
    if opened[0].is_none() && opened[1].is_none() {
        return Err(SwapError::DecryptionFailure);
    }
    if !(output_ok(p, opened, 0) && output_ok(p, opened, 1)) {
        return Err(SwapError::CommitmentMismatch);
    }
    if opened[0].is_some() {
        Ok(0)
    } else {
        Ok(1)
    }
}

/// A transfer that passes inspection has, at every output that a local key
/// opened, a recomputed coin hash and commitments equal to the declared ones,
/// and commitments equal to those of the paired input; and the output named
/// in the result is one of them.
pub proof fn lemma_inspected_outputs_match(p: TransferParams, opened: Seq<Option<Recomputed>>)
    requires
        inspect_spec(p, opened) is Ok,
    ensures
        two_by_two(p),
        opened[inspect_spec(p, opened)->Ok_0 as int] is Some,
        forall|i: int|
            0 <= i < 2 && #[trigger] opened[i] is Some ==> {
                let rc = opened[i]->Some_0;
                &&& rc.coin == p.outputs@[i].coin
                &&& rc.value_commit == p.outputs@[i].value_commit
                &&& rc.token_commit == p.outputs@[i].token_commit
                &&& rc.value_commit == p.inputs@[1 - i].value_commit
                &&& rc.token_commit == p.inputs@[1 - i].token_commit
            },
{
    assert forall|i: int| 0 <= i < 2 && #[trigger] opened[i] is Some implies output_consistent(
        p,
        i,
        opened[i]->Some_0,
    ) by {
        assert(opened_ok(p, opened, i));
    }
}

/// Inspection never lets a changed recomputation pass: where a transfer passed
/// and a local key opened output `i`, recomputing any other coin hash or
/// commitment there makes it fail with a commitment mismatch.
pub proof fn lemma_altered_recomputation_rejected(
    p: TransferParams,
    opened: Seq<Option<Recomputed>>,
    i: int,
    altered: Recomputed,
)
    requires
        opened.len() == 2,
        inspect_spec(p, opened) is Ok,
        0 <= i < 2,
        opened[i] is Some,
        altered != opened[i]->Some_0,
    ensures
        inspect_spec(p, opened.update(i, Some(altered))) == Err::<usize, SwapError>(
            SwapError::CommitmentMismatch,
        ),
{
    let rc = opened[i]->Some_0;
    let q = opened.update(i, Some(altered));
    assert(q[i] == Some(altered));
    assert(opened_ok(p, opened, i));
    assert(!output_consistent(p, i, altered)) by {
        if output_consistent(p, i, altered) {
            assert(altered == rc);
        }
    }
    assert(!opened_ok(p, q, i));
}

/// Two halves merged by the joiner pass inspection, naming the first output
/// that a local key opens, once each half's minted output commits to what the
/// other half burns and every opened note recomputes to its declared output.
pub proof fn lemma_joined_halves_inspect(
    a: TransferParams,
    b: TransferParams,
    joint: TransferParams,
    opened: Seq<Option<Recomputed>>,
)
    requires
        a.inputs@.len() >= 1 && a.outputs@.len() >= 1,
        b.inputs@.len() >= 1 && b.outputs@.len() >= 1,
        joined_params(a, b, joint),
        a.outputs@[0].value_commit == b.inputs@[0].value_commit,
        a.outputs@[0].token_commit == b.inputs@[0].token_commit,
        b.outputs@[0].value_commit == a.inputs@[0].value_commit,
        b.outputs@[0].token_commit == a.inputs@[0].token_commit,
        opened.len() == 2,
        opened[0] is Some || opened[1] is Some,
        forall|i: int|
            0 <= i < 2 && #[trigger] opened[i] is Some ==> opened[i]->Some_0 == (Recomputed {
                coin: joint.outputs@[i].coin,
                value_commit: joint.outputs@[i].value_commit,
                token_commit: joint.outputs@[i].token_commit,
            }),
    ensures
        inspect_spec(joint, opened) == Ok::<usize, SwapError>(first_opened(opened)),
{
    assert(joint.inputs@[0] == a.inputs@[0]);
    assert(joint.inputs@[1] == b.inputs@[0]);
    assert(joint.outputs@[0] == a.outputs@[0]);
    assert(joint.outputs@[1] == b.outputs@[0]);
    if opened[0] is Some {
        assert(opened_ok(joint, opened, 0));
    }
    if opened[1] is Some {
        assert(opened_ok(joint, opened, 1));
    }
}

} // verus!
