use drk_swap::codec::{call_data, decode_params, encode_params};
use drk_swap::inspect::{choose_shape, first_some, inspect_params, swap_params};
use drk_swap::join::{attach_signatures, join_halves, merge_halves, reused_blinds};
use drk_swap::model::{
    Bytes32, ClearInput, Coin, ContractCall, Input, Output, PartialSwapData, Recomputed, Signature,
    SwapError, Transaction, TransferParams,
};
use drk_swap::select::{
    bytes_eq, find_circuit, half_from_plan, plan_half, plan_join, select_coin, ZkasBinary,
};
use drk_swap::sign::{place_signature, signing_key};

fn w(n: u64) -> Bytes32 {
    Bytes32 { l0: n, l1: n + 1, l2: n + 2, l3: n + 3 }
}

fn coin(value: u64, token: Bytes32, hook: Bytes32) -> Coin {
    Coin {
        value,
        token_id: token,
        spend_hook: hook,
        serial: w(50),
        coin_blind: w(51),
        value_blind: w(52),
        token_blind: w(53),
    }
}

fn input(vc: Bytes32, tc: Bytes32) -> Input {
    Input {
        value_commit: vc,
        token_commit: tc,
        nullifier: w(70),
        merkle_root: w(71),
        spend_hook: Bytes32::zero(),
        user_data_enc: w(72),
        signature_public: w(73),
    }
}

fn output(vc: Bytes32, tc: Bytes32, coin: Bytes32) -> Output {
    Output { value_commit: vc, token_commit: tc, coin, ciphertext: vec![9, 8, 7], ephem_public: w(80) }
}

fn bins() -> Vec<ZkasBinary> {
    vec![
        ZkasBinary { name: b"Burn_V1".to_vec(), bytecode: vec![2] },
        ZkasBinary { name: b"Mint_V1".to_vec(), bytecode: vec![1] },
    ]
}

// Value and token commitments of the two assets: A sends 10 of X, B sends 5 of Y.
fn a_sends() -> (Bytes32, Bytes32) {
    (w(1000), w(1100))
}

fn b_sends() -> (Bytes32, Bytes32) {
    (w(2000), w(2100))
}

/// A's half burns (10, X) and mints (5, Y); B's half burns (5, Y) and mints
/// (10, X), with the reused blinds giving equal commitments.
fn halves() -> (PartialSwapData, TransferParams, Vec<Vec<u8>>) {
    let (ax_v, ax_t) = a_sends();
    let (by_v, by_t) = b_sends();
    let a = TransferParams {
        clear_inputs: vec![],
        inputs: vec![input(ax_v, ax_t)],
        outputs: vec![output(by_v, by_t, w(3000))],
    };
    let partial = PartialSwapData {
        params: a,
        proofs: vec![vec![0xa1], vec![0xa2]],
        value_pair: (10, 5),
        token_pair: (w(1), w(2)),
        value_blinds: vec![w(90), w(91)],
        token_blinds: vec![w(92), w(93)],
    };
    let b = TransferParams {
        clear_inputs: vec![],
        inputs: vec![input(by_v, by_t)],
        outputs: vec![output(ax_v, ax_t, w(4000))],
    };
    (partial, b, vec![vec![0xb1], vec![0xb2]])
}

fn joint_params() -> TransferParams {
    let (partial, b, bp) = halves();
    merge_halves(partial, b, bp).unwrap().0
}

fn rc_of(o: &Output) -> Recomputed {
    Recomputed { coin: o.coin, value_commit: o.value_commit, token_commit: o.token_commit }
}

#[test]
fn select_first_eligible_coin() {
    let x = w(1);
    let coins = vec![coin(9, x, Bytes32::zero()), coin(10, x, w(5)), coin(10, x, Bytes32::zero()), coin(10, x, Bytes32::zero())];
    assert_eq!(select_coin(&coins, 10, x), Ok(2));
}

#[test]
fn select_without_eligible_coin_fails() {
    let x = w(1);
    assert_eq!(select_coin(&vec![], 10, x), Err(SwapError::NoMatchingCoin));
    let coins = vec![coin(10, x, w(5)), coin(10, w(2), Bytes32::zero()), coin(11, x, Bytes32::zero())];
    assert_eq!(select_coin(&coins, 10, x), Err(SwapError::NoMatchingCoin));
}

#[test]
fn circuits_are_found_by_name() {
    assert!(bytes_eq(&b"Mint_V1".to_vec(), &b"Mint_V1".to_vec()));
    assert!(!bytes_eq(&b"Mint_V1".to_vec(), &b"Mint_V2".to_vec()));
    assert_eq!(find_circuit(&bins(), &b"Mint_V1".to_vec()), Ok(1));
    assert_eq!(find_circuit(&bins(), &b"Burn_V1".to_vec()), Ok(0));
    assert_eq!(find_circuit(&bins(), &b"Mint".to_vec()), Err(SwapError::CircuitNotFound));
}

#[test]
fn plan_half_reports_each_failure() {
    let x = w(1);
    let y = w(2);
    let coins = vec![coin(10, x, Bytes32::zero())];
    let mint = b"Mint_V1".to_vec();
    let burn = b"Burn_V1".to_vec();
    let plan = plan_half(&coins, &bins(), &mint, &burn, 10, x, 5, y).unwrap();
    assert_eq!((plan.coin, plan.mint, plan.burn), (0, 1, 0));
    assert_eq!((plan.value_send, plan.token_send, plan.value_recv, plan.token_recv), (10, x, 5, y));
    assert_eq!(plan_half(&coins, &bins(), &mint, &burn, 5, y, 10, x), Err(SwapError::NoMatchingCoin));
    let only_mint = vec![ZkasBinary { name: mint.clone(), bytecode: vec![] }];
    assert_eq!(plan_half(&coins, &only_mint, &mint, &burn, 10, x, 5, y), Err(SwapError::CircuitNotFound));
    assert_eq!(plan_half(&coins, &vec![], &mint, &burn, 10, x, 5, y), Err(SwapError::CircuitNotFound));
}

#[test]
fn plan_join_sends_what_the_initiator_receives() {
    let (partial, _, _) = halves();
    let coins = vec![coin(10, w(1), Bytes32::zero()), coin(5, w(2), Bytes32::zero())];
    let plan = plan_join(&coins, &bins(), &b"Mint_V1".to_vec(), &b"Burn_V1".to_vec(), &partial).unwrap();
    assert_eq!(plan.coin, 1);
    assert_eq!((plan.value_send, plan.token_send), (5, w(2)));
    assert_eq!((plan.value_recv, plan.token_recv), (10, w(1)));
    let none = vec![coin(10, w(1), Bytes32::zero())];
    assert_eq!(
        plan_join(&none, &bins(), &b"Mint_V1".to_vec(), &b"Burn_V1".to_vec(), &partial),
        Err(SwapError::NoMatchingCoin)
    );
}

#[test]
fn merge_orders_inputs_outputs_and_proofs() {
    let (partial, b, bp) = halves();
    let (joint, proofs) = merge_halves(partial, b, bp).unwrap();
    assert!(joint.clear_inputs.is_empty());
    assert_eq!(joint.inputs[0].value_commit, a_sends().0);
    assert_eq!(joint.inputs[1].value_commit, b_sends().0);
    assert_eq!(joint.outputs[0].coin, w(3000));
    assert_eq!(joint.outputs[1].coin, w(4000));
    assert_eq!(proofs, vec![vec![0xa1], vec![0xb1], vec![0xa2], vec![0xb2]]);
}

#[test]
fn merge_refuses_a_half_without_proofs() {
    let (mut partial, b, bp) = halves();
    partial.proofs.pop();
    assert_eq!(merge_halves(partial, b, bp).err(), Some(SwapError::MalformedHalf));
    let (partial, mut b, bp) = halves();
    b.outputs.clear();
    assert_eq!(merge_halves(partial, b, bp).err(), Some(SwapError::MalformedHalf));
}

#[test]
fn encoding_of_empty_transfer() {
    let p = TransferParams { clear_inputs: vec![], inputs: vec![], outputs: vec![] };
    assert_eq!(encode_params(&p), vec![0, 0, 0]);
    assert_eq!(call_data(7, &p), vec![7, 0, 0, 0]);
}

#[test]
fn encoding_of_fields_is_little_endian() {
    let c = ClearInput {
        value: 0x0102,
        token_id: Bytes32 { l0: 0x0a0b, l1: 0, l2: 0, l3: 1 << 56 },
        value_blind: Bytes32::zero(),
        token_blind: Bytes32::zero(),
        signature_public: Bytes32::zero(),
    };
    let p = TransferParams { clear_inputs: vec![c], inputs: vec![], outputs: vec![] };
    let e = encode_params(&p);
    assert_eq!(e.len(), 1 + 136 + 1 + 1);
    assert_eq!(e[0], 1);
    assert_eq!(&e[1..9], &[2, 1, 0, 0, 0, 0, 0, 0]);
    assert_eq!(&e[9..11], &[0x0b, 0x0a]);
    assert_eq!(e[9 + 31], 1);
    assert_eq!(&e[137..], &[0, 0]);
}

#[test]
fn encoding_of_long_ciphertext_uses_wide_length_prefix() {
    let mut o = output(w(1), w(2), w(3));
    o.ciphertext = vec![5; 300];
    let p = TransferParams { clear_inputs: vec![], inputs: vec![], outputs: vec![o] };
    let e = encode_params(&p);
    assert_eq!(e.len(), 3 + 96 + 3 + 300 + 32);
    assert_eq!(&e[3 + 96..3 + 99], &[0xfd, 0x2c, 0x01]);
    let d = decode_params(&e, 0).unwrap();
    assert_eq!(d.outputs[0].ciphertext, vec![5; 300]);
}

#[test]
fn transfer_round_trips() {
    let mut p = joint_params();
    p.clear_inputs.push(ClearInput {
        value: u64::MAX,
        token_id: w(11),
        value_blind: w(12),
        token_blind: w(13),
        signature_public: w(14),
    });
    let e = encode_params(&p);
    let d = decode_params(&e, 0).unwrap();
    assert_eq!(d.clear_inputs, p.clear_inputs);
    assert_eq!(d.inputs, p.inputs);
    assert_eq!(d.outputs.len(), 2);
    for i in 0..2 {
        assert_eq!(d.outputs[i].coin, p.outputs[i].coin);
        assert_eq!(d.outputs[i].ciphertext, p.outputs[i].ciphertext);
        assert_eq!(d.outputs[i].ephem_public, p.outputs[i].ephem_public);
    }
    assert_eq!(encode_params(&d), e);
}

#[test]
fn decoding_refuses_truncated_or_padded_bytes() {
    let e = encode_params(&joint_params());
    assert!(decode_params(&e[..e.len() - 1].to_vec(), 0).is_none());
    let mut padded = e.clone();
    padded.push(0);
    assert!(decode_params(&padded, 0).is_none());
    // A length prefix written wider than needed is refused.
    assert!(decode_params(&vec![0xfd, 0, 0, 0, 0], 0).is_none());
}

#[test]
fn joined_transaction_carries_the_joint_transfer() {
    let (partial, b, bp) = halves();
    let tx = join_halves(partial, b, bp, w(600), 3).unwrap();
    assert_eq!(tx.calls.len(), 1);
    assert_eq!(tx.calls[0].contract_id, w(600));
    assert_eq!(tx.calls[0].data[0], 3);
    assert_eq!(tx.calls[0].data, call_data(3, &joint_params()));
    assert_eq!(tx.proofs, vec![vec![vec![0xa1], vec![0xb1], vec![0xa2], vec![0xb2]]]);
    assert!(tx.signatures.is_empty());
    let p = swap_params(&tx).unwrap();
    assert_eq!(p.inputs, joint_params().inputs);
}

#[test]
fn swap_params_reports_shape_errors() {
    let mut tx = Transaction { calls: vec![], proofs: vec![], signatures: vec![] };
    assert_eq!(swap_params(&tx).err(), Some(SwapError::WrongCallCount));
    tx.calls.push(ContractCall { contract_id: w(1), data: vec![] });
    assert_eq!(swap_params(&tx).err(), Some(SwapError::DecodeFailure));
    tx.calls[0].data = vec![3, 0, 0];
    assert_eq!(swap_params(&tx).err(), Some(SwapError::DecodeFailure));
    tx.calls[0].data = vec![3, 0, 0, 0];
    assert!(swap_params(&tx).unwrap().inputs.is_empty());
    tx.calls.push(ContractCall { contract_id: w(1), data: vec![3, 0, 0, 0] });
    assert_eq!(swap_params(&tx).err(), Some(SwapError::WrongCallCount));
}

#[test]
fn undecodable_bytes_are_a_decode_failure() {
    assert_eq!(choose_shape(None, None).err(), Some(SwapError::DecodeFailure));
    let (partial, _, _) = halves();
    assert_eq!(choose_shape(None, Some(partial)).err(), Some(SwapError::UnsupportedHalfInspection));
    let tx = Transaction { calls: vec![], proofs: vec![], signatures: vec![] };
    let (partial, _, _) = halves();
    assert!(choose_shape(Some(tx), Some(partial)).is_ok());
}

#[test]
fn first_some_finds_first_opening_key() {
    assert_eq!(first_some::<u8>(&vec![]), None);
    assert_eq!(first_some::<u8>(&vec![None, None]), None);
    assert_eq!(first_some(&vec![None, Some(4u8), Some(5)]), Some(1));
}

#[test]
fn swap_of_ten_x_for_five_y_inspects() {
    let p = joint_params();
    // A opens output 0, B opens output 1.
    let for_a = vec![Some(rc_of(&p.outputs[0])), None];
    assert_eq!(inspect_params(&p, &for_a), Ok(0));
    let for_b = vec![None, Some(rc_of(&p.outputs[1]))];
    assert_eq!(inspect_params(&p, &for_b), Ok(1));
    // Output 0 matches input 1 and output 1 matches input 0.
    assert_eq!(p.outputs[0].value_commit, p.inputs[1].value_commit);
    assert_eq!(p.outputs[0].token_commit, p.inputs[1].token_commit);
    assert_eq!(p.outputs[1].value_commit, p.inputs[0].value_commit);
    assert_eq!(p.outputs[1].token_commit, p.inputs[0].token_commit);
}

#[test]
fn altered_recomputation_is_a_commitment_mismatch() {
    let p = joint_params();
    let good = rc_of(&p.outputs[0]);
    let mut coin_changed = good;
    coin_changed.coin = w(3001);
    assert_eq!(inspect_params(&p, &vec![Some(coin_changed), None]), Err(SwapError::CommitmentMismatch));
    let mut value_changed = good;
    value_changed.value_commit = w(7);
    assert_eq!(inspect_params(&p, &vec![Some(value_changed), None]), Err(SwapError::CommitmentMismatch));
    let mut token_changed = good;
    token_changed.token_commit = w(7);
    assert_eq!(inspect_params(&p, &vec![Some(token_changed), None]), Err(SwapError::CommitmentMismatch));
}

#[test]
fn unpaired_commitment_is_a_mismatch() {
    let mut p = joint_params();
    p.inputs[1].value_commit = w(9);
    let rc = rc_of(&p.outputs[0]);
    assert_eq!(inspect_params(&p, &vec![Some(rc), None]), Err(SwapError::CommitmentMismatch));
}

#[test]
fn inspection_shape_and_decryption_errors() {
    let p = joint_params();
    assert_eq!(inspect_params(&p, &vec![None, None]), Err(SwapError::DecryptionFailure));
    let mut three = joint_params();
    three.inputs.push(three.inputs[0]);
    assert_eq!(inspect_params(&three, &vec![None, None]), Err(SwapError::WrongInputOutputCount));
}

#[test]
fn initiator_signature_takes_slot_zero() {
    let (partial, b, bp) = halves();
    let mut tx = join_halves(partial, b, bp, w(600), 3).unwrap();
    let joiner = Signature { commit: w(1), response: w(2) };
    let initiator = Signature { commit: w(3), response: w(4) };
    attach_signatures(&mut tx, vec![joiner]);
    assert_eq!(place_signature(&mut tx, initiator), Ok(()));
    assert_eq!(tx.signatures, vec![vec![initiator, joiner]]);
    assert_eq!(tx.calls[0].data, call_data(3, &joint_params()));
}

#[test]
fn signing_without_signature_set_fails() {
    let mut tx = Transaction { calls: vec![], proofs: vec![], signatures: vec![] };
    let s = Signature { commit: w(3), response: w(4) };
    assert_eq!(place_signature(&mut tx, s), Err(SwapError::WrongCallCount));
    assert!(tx.signatures.is_empty());
}

#[test]
fn both_opened_outputs_are_checked() {
    let p = joint_params();
    let both = vec![Some(rc_of(&p.outputs[0])), Some(rc_of(&p.outputs[1]))];
    assert_eq!(inspect_params(&p, &both), Ok(0));
    let mut bad_second = rc_of(&p.outputs[1]);
    bad_second.value_commit = w(7);
    let opened = vec![Some(rc_of(&p.outputs[0])), Some(bad_second)];
    assert_eq!(inspect_params(&p, &opened), Err(SwapError::CommitmentMismatch));
    let mut bad_coin = rc_of(&p.outputs[1]);
    bad_coin.coin = w(7);
    let opened = vec![Some(rc_of(&p.outputs[0])), Some(bad_coin)];
    assert_eq!(inspect_params(&p, &opened), Err(SwapError::CommitmentMismatch));
}

#[test]
fn second_output_unpaired_with_first_input_is_a_mismatch() {
    let mut p = joint_params();
    p.inputs[0].token_commit = w(9);
    let both = vec![Some(rc_of(&p.outputs[0])), Some(rc_of(&p.outputs[1]))];
    assert_eq!(inspect_params(&p, &both), Err(SwapError::CommitmentMismatch));
    // Where only output 0 is opened, input 0 is not its pair.
    assert_eq!(inspect_params(&p, &vec![Some(rc_of(&p.outputs[0])), None]), Ok(0));
}

#[test]
fn half_is_packaged_with_planned_pairs() {
    let x = w(1);
    let y = w(2);
    let coins = vec![coin(10, x, Bytes32::zero())];
    let plan = plan_half(&coins, &bins(), &b"Mint_V1".to_vec(), &b"Burn_V1".to_vec(), 10, x, 5, y).unwrap();
    let (partial, _, _) = halves();
    let h = half_from_plan(&plan, partial.params, vec![vec![1], vec![2]], vec![w(90)], vec![w(92)]);
    assert_eq!(h.value_pair, (10, 5));
    assert_eq!(h.token_pair, (x, y));
    assert_eq!(h.proofs, vec![vec![1], vec![2]]);
    assert_eq!(h.value_blinds, vec![w(90)]);
    assert_eq!(h.token_blinds, vec![w(92)]);
    assert_eq!(h.params.inputs[0].value_commit, a_sends().0);
}

#[test]
fn joiner_reuses_the_received_blinds() {
    let (partial, _, _) = halves();
    let (vb, tb) = reused_blinds(&partial);
    assert_eq!(vb, vec![w(90), w(91)]);
    assert_eq!(tb, vec![w(92), w(93)]);
}

#[test]
fn signer_takes_the_first_opening_key() {
    let p = joint_params();
    assert_eq!(signing_key(&p, &vec![None, Some(w(5)), Some(w(6))]), Ok(w(5)));
    assert_eq!(signing_key(&p, &vec![None, None]), Err(SwapError::DecryptionFailure));
    assert_eq!(signing_key(&p, &vec![]), Err(SwapError::DecryptionFailure));
    let empty = TransferParams { clear_inputs: vec![], inputs: vec![], outputs: vec![] };
    assert_eq!(signing_key(&empty, &vec![Some(w(5))]), Err(SwapError::WrongInputOutputCount));
}
