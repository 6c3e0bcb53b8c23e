use drk_swap::codec::encode_params;
use drk_swap::inspect::{decode_swap, inspect_params, swap_params};
use drk_swap::join::{attach_signatures, join_halves};
use drk_swap::model::{
    Bytes32, ContractCall, Input, Output, PartialSwapData, Recomputed, Signature, SwapError,
    Transaction, TransferParams,
};
use drk_swap::sign::place_signature;
use drk_swap::wire::{decode_partial, decode_transaction, encode_partial, encode_transaction};

fn w(n: u64) -> Bytes32 {
    Bytes32 { l0: n, l1: 0, l2: n << 8, l3: u64::MAX - n }
}

fn input(vc: Bytes32, tc: Bytes32) -> Input {
    Input {
        value_commit: vc,
        token_commit: tc,
        nullifier: w(70),
        merkle_root: w(71),
        spend_hook: Bytes32::zero(),
        user_data_enc: w(72),
        signature_public: w(73),
    }
}

fn output(vc: Bytes32, tc: Bytes32, coin: Bytes32) -> Output {
    Output { value_commit: vc, token_commit: tc, coin, ciphertext: vec![1, 2, 3, 4], ephem_public: w(80) }
}

fn half(send: (Bytes32, Bytes32), recv: (Bytes32, Bytes32), coin: u64, proof: u8) -> (TransferParams, Vec<Vec<u8>>) {
    let p = TransferParams {
        clear_inputs: vec![],
        inputs: vec![input(send.0, send.1)],
        outputs: vec![output(recv.0, recv.1, w(coin))],
    };
    (p, vec![vec![proof, 1], vec![proof, 2]])
}

fn partial() -> PartialSwapData {
    // Wallet A sends 10 of X and asks for 5 of Y.
    let (params, proofs) = half((w(10), w(11)), (w(5), w(6)), 3000, 0xa0);
    PartialSwapData {
        params,
        proofs,
        value_pair: (10, 5),
        token_pair: (w(100), w(200)),
        value_blinds: vec![w(90), w(91)],
        token_blinds: vec![w(92), w(93)],
    }
}

fn joined() -> Transaction {
    // Wallet B burns 5 of Y and mints 10 of X, reusing A's blinds.
    let (own, own_proofs) = half((w(5), w(6)), (w(10), w(11)), 4000, 0xb0);
    join_halves(partial(), own, own_proofs, w(600), 3).unwrap()
}

fn rc(o: &Output) -> Recomputed {
    Recomputed { coin: o.coin, value_commit: o.value_commit, token_commit: o.token_commit }
}

#[test]
fn partial_round_trips() {
    let p = partial();
    let e = encode_partial(&p);
    let d = decode_partial(&e).unwrap();
    assert_eq!(d.value_pair, (10, 5));
    assert_eq!(d.token_pair, (w(100), w(200)));
    assert_eq!(d.value_blinds, p.value_blinds);
    assert_eq!(d.token_blinds, p.token_blinds);
    assert_eq!(d.proofs, p.proofs);
    assert_eq!(d.params.inputs, p.params.inputs);
    assert_eq!(encode_params(&d.params), encode_params(&p.params));
    assert_eq!(encode_partial(&d), e);
}

#[test]
fn partial_encoding_layout() {
    let e = encode_partial(&partial());
    let params_len = encode_params(&partial().params).len();
    // Two proofs of two bytes each, behind their length prefixes.
    assert_eq!(&e[params_len..params_len + 7], &[2, 2, 0xa0, 1, 2, 0xa0, 2]);
    assert_eq!(&e[params_len + 7..params_len + 15], &[10, 0, 0, 0, 0, 0, 0, 0]);
    assert_eq!(&e[params_len + 15..params_len + 23], &[5, 0, 0, 0, 0, 0, 0, 0]);
    assert_eq!(e.len(), params_len + 7 + 16 + 64 + 65 + 65);
}

#[test]
fn transaction_round_trips() {
    let mut tx = joined();
    attach_signatures(&mut tx, vec![Signature { commit: w(1), response: w(2) }]);
    let e = encode_transaction(&tx);
    let d = decode_transaction(&e).unwrap();
    assert_eq!(d.signatures, tx.signatures);
    assert_eq!(d.proofs, tx.proofs);
    assert_eq!(d.calls.len(), 1);
    assert_eq!(d.calls[0].contract_id, w(600));
    assert_eq!(d.calls[0].data, tx.calls[0].data);
    assert_eq!(encode_transaction(&d), e);
}

#[test]
fn empty_transaction_encoding() {
    let tx = Transaction { calls: vec![], proofs: vec![], signatures: vec![] };
    assert_eq!(encode_transaction(&tx), vec![0, 0, 0]);
    let tx = Transaction {
        calls: vec![ContractCall { contract_id: Bytes32::zero(), data: vec![7] }],
        proofs: vec![vec![]],
        signatures: vec![vec![]],
    };
    let e = encode_transaction(&tx);
    assert_eq!(e.len(), 1 + 32 + 2 + 2 + 2);
    assert_eq!(&e[33..], &[1, 7, 1, 0, 1, 0]);
}

#[test]
fn unknown_bytes_fail_to_decode() {
    assert_eq!(decode_swap(&vec![0xff]).err(), Some(SwapError::DecodeFailure));
    assert_eq!(decode_swap(&vec![]).err(), Some(SwapError::DecodeFailure));
    assert_eq!(decode_swap(&vec![1, 2, 3, 4, 5]).err(), Some(SwapError::DecodeFailure));
    let mut e = encode_transaction(&joined());
    e.push(0);
    assert_eq!(decode_swap(&e).err(), Some(SwapError::DecodeFailure));
}

#[test]
fn half_swap_bytes_are_not_inspected() {
    let e = encode_partial(&partial());
    assert_eq!(decode_swap(&e).err(), Some(SwapError::UnsupportedHalfInspection));
}

#[test]
fn serialized_swap_inspects_and_tampering_is_caught() {
    let mut tx = joined();
    attach_signatures(&mut tx, vec![Signature { commit: w(1), response: w(2) }]);
    let decoded = decode_swap(&encode_transaction(&tx)).unwrap();
    let p = swap_params(&decoded).unwrap();
    assert_eq!(p.inputs.len(), 2);
    assert_eq!(p.outputs.len(), 2);
    assert_eq!(inspect_params(&p, &vec![Some(rc(&p.outputs[0])), None]), Ok(0));
    assert_eq!(inspect_params(&p, &vec![None, Some(rc(&p.outputs[1]))]), Ok(1));
    assert_eq!(p.outputs[0].value_commit, p.inputs[1].value_commit);
    assert_eq!(p.outputs[1].token_commit, p.inputs[0].token_commit);
    // A note whose coin blind was changed recomputes to another coin hash.
    let mut altered = rc(&p.outputs[0]);
    altered.coin = w(3001);
    assert_eq!(inspect_params(&p, &vec![Some(altered), None]), Err(SwapError::CommitmentMismatch));
}

#[test]
fn signed_swap_keeps_signature_in_slot_zero_after_decoding() {
    let mut tx = joined();
    let joiner = Signature { commit: w(1), response: w(2) };
    let initiator = Signature { commit: w(3), response: w(4) };
    attach_signatures(&mut tx, vec![joiner]);
    place_signature(&mut tx, initiator).unwrap();
    let d = decode_transaction(&encode_transaction(&tx)).unwrap();
    assert_eq!(d.signatures.len(), 1);
    assert_eq!(d.signatures[0], vec![initiator, joiner]);
}
