//! Transactions and half-swaps on the wire, in the encoding of transfers:
//! fields in declaration order, every list and byte string behind a compact
//! length prefix.
use vstd::prelude::*;
use crate::codec::{
    b32_enc, bytes_enc, extend, fits, le64, lemma_fits_cat, lemma_fits_join, lemma_fits_split,
    lemma_flatten_len_ge, lemma_item_fits, list_enc, params_enc, put_b32, put_u64, put_varint,
    read_b32, read_bytes, read_params, read_u64, read_varint, varint_spec, ParamsView,
    encode_params,
};
use crate::model::{Bytes32, ContractCall, PartialSwapData, Signature, Transaction};

verus! {

pub open spec fn signature_enc(s: Signature) -> Seq<u8> {
    b32_enc(s.commit) + b32_enc(s.response)
}

/// A contract call with its payload as a sequence of bytes.
pub struct CallView {
    pub contract_id: Bytes32,
    pub data: Seq<u8>,
}

impl View for ContractCall {
    type V = CallView;

    open spec fn view(&self) -> CallView {
        CallView { contract_id: self.contract_id, data: self.data@ }
    }
}

pub open spec fn call_enc(c: CallView) -> Seq<u8> {
    b32_enc(c.contract_id) + bytes_enc(c.data)
}

pub open spec fn byte_strings_view(s: Seq<Vec<u8>>) -> Seq<Seq<u8>> {
    Seq::new(s.len(), |j: int| s[j]@)
}

pub open spec fn proof_sets_view(s: Seq<Vec<Vec<u8>>>) -> Seq<Seq<Seq<u8>>> {
    Seq::new(s.len(), |j: int| byte_strings_view(s[j]@))
}

pub open spec fn signature_sets_view(s: Seq<Vec<Signature>>) -> Seq<Seq<Signature>> {
    Seq::new(s.len(), |j: int| s[j]@)
}

pub open spec fn calls_view(s: Seq<ContractCall>) -> Seq<CallView> {
    Seq::new(s.len(), |j: int| s[j]@)
}

pub open spec fn word_parts(s: Seq<Bytes32>) -> Seq<Seq<u8>> {
    Seq::new(s.len(), |j: int| b32_enc(s[j]))
}

pub open spec fn words_enc(s: Seq<Bytes32>) -> Seq<u8> {
    list_enc(s.len(), word_parts(s))
}

pub open spec fn byte_string_parts(s: Seq<Seq<u8>>) -> Seq<Seq<u8>> {
    Seq::new(s.len(), |j: int| bytes_enc(s[j]))
}

pub open spec fn byte_strings_enc(s: Seq<Seq<u8>>) -> Seq<u8> {
    list_enc(s.len(), byte_string_parts(s))
}

pub open spec fn proof_set_parts(s: Seq<Seq<Seq<u8>>>) -> Seq<Seq<u8>> {
    Seq::new(s.len(), |j: int| byte_strings_enc(s[j]))
}

pub open spec fn proof_sets_enc(s: Seq<Seq<Seq<u8>>>) -> Seq<u8> {
    list_enc(s.len(), proof_set_parts(s))
}

pub open spec fn signature_parts(s: Seq<Signature>) -> Seq<Seq<u8>> {
    Seq::new(s.len(), |j: int| signature_enc(s[j]))
}

pub open spec fn signatures_enc(s: Seq<Signature>) -> Seq<u8> {
    list_enc(s.len(), signature_parts(s))
}

pub open spec fn signature_set_parts(s: Seq<Seq<Signature>>) -> Seq<Seq<u8>> {
    Seq::new(s.len(), |j: int| signatures_enc(s[j]))
}

pub open spec fn signature_sets_enc(s: Seq<Seq<Signature>>) -> Seq<u8> {
    list_enc(s.len(), signature_set_parts(s))
}

pub open spec fn call_parts(s: Seq<CallView>) -> Seq<Seq<u8>> {
    Seq::new(s.len(), |j: int| call_enc(s[j]))
}

pub open spec fn calls_enc(s: Seq<CallView>) -> Seq<u8> {
    list_enc(s.len(), call_parts(s))
}

/// A transaction with every list as a sequence.
pub struct TxView {
    pub calls: Seq<CallView>,
    pub proofs: Seq<Seq<Seq<u8>>>,
    pub signatures: Seq<Seq<Signature>>,
}

impl View for Transaction {
    type V = TxView;

    open spec fn view(&self) -> TxView {
        TxView {
            calls: calls_view(self.calls@),
            proofs: proof_sets_view(self.proofs@),
            signatures: signature_sets_view(self.signatures@),
        }
    }
}

pub open spec fn tx_enc(t: TxView) -> Seq<u8> {
    calls_enc(t.calls) + proof_sets_enc(t.proofs) + signature_sets_enc(t.signatures)
}

/// A half-swap with every list as a sequence.
pub struct PartialView {
    pub params: ParamsView,
    pub proofs: Seq<Seq<u8>>,
    pub value_pair: (u64, u64),
    pub token_pair: (Bytes32, Bytes32),
    pub value_blinds: Seq<Bytes32>,
    pub token_blinds: Seq<Bytes32>,
}

impl View for PartialSwapData {
    type V = PartialView;

    open spec fn view(&self) -> PartialView {
        PartialView {
            params: self.params@,
            proofs: byte_strings_view(self.proofs@),
            value_pair: self.value_pair,
            token_pair: self.token_pair,
            value_blinds: self.value_blinds@,
            token_blinds: self.token_blinds@,
        }
    }
}

pub open spec fn partial_enc(p: PartialView) -> Seq<u8> {
    params_enc(p.params) + byte_strings_enc(p.proofs) + le64(p.value_pair.0) + le64(p.value_pair.1)
        + b32_enc(p.token_pair.0) + b32_enc(p.token_pair.1) + words_enc(p.value_blinds) + words_enc(
        p.token_blinds,
    )
}

fn put_byte_string(out: &mut Vec<u8>, s: &Vec<u8>)
    ensures
        final(out)@ == old(out)@ + bytes_enc(s@),
{
    let ghost start = out@;
    put_varint(out, s.len() as u64);
    extend(out, s);
    assert(out@ =~= start + bytes_enc(s@));
}

fn put_signature(out: &mut Vec<u8>, s: Signature)
    ensures
        final(out)@ == old(out)@ + signature_enc(s),
{
    let ghost start = out@;
    put_b32(out, s.commit);
    put_b32(out, s.response);
    assert(out@ =~= start + signature_enc(s));
}

fn put_call(out: &mut Vec<u8>, c: &ContractCall)
    ensures
        final(out)@ == old(out)@ + call_enc(c@),
{
    let ghost start = out@;
    put_b32(out, c.contract_id);
    put_byte_string(out, &c.data);
    assert(out@ =~= start + call_enc(c@));
}

fn read_word(b: &Vec<u8>, pos: usize) -> (r: Option<(Bytes32, usize)>)
    requires
        pos <= b@.len(),
    ensures
        r is Some ==> fits(b@, pos as int, b32_enc(r->Some_0.0)) && r->Some_0.1 == pos + b32_enc(
            r->Some_0.0,
        ).len(),
        forall|x: Bytes32| fits(b@, pos as int, #[trigger] b32_enc(x)) ==> r is Some && r->Some_0.0 == x,
{
    let _ = b.len();
    match read_b32(b, pos) {
        Some(w) => Some((w, pos + 32)),
        None => None,
    }
}

fn read_byte_string(b: &Vec<u8>, pos: usize) -> (r: Option<(Vec<u8>, usize)>)
    requires
        pos <= b@.len(),
    ensures
        r is Some ==> fits(b@, pos as int, bytes_enc(r->Some_0.0@)) && r->Some_0.1 == pos + bytes_enc(
            r->Some_0.0@,
        ).len(),
        forall|x: Seq<u8>| fits(b@, pos as int, #[trigger] bytes_enc(x)) ==> r is Some && r->Some_0.0@ == x,
{
    let _ = b.len();
    proof {
        assert forall|x: Seq<u8>| fits(b@, pos as int, #[trigger] bytes_enc(x)) implies fits(
            b@,
            pos as int,
            varint_spec(x.len() as u64),
        ) && fits(b@, pos + varint_spec(x.len() as u64).len(), x) && x.len() == x.len() as u64 by {
            lemma_fits_cat(b@, pos as int, varint_spec(x.len() as u64), x);
        }
    }
    let (n, k) = match read_varint(b, pos) {
        Some(v) => v,
        None => return None,
    };
    let body = pos + k;
    if n > (b.len() - body) as u64 {
        return None;
    }
    let s = read_bytes(b, body, n as usize);
    proof {
        assert(k == varint_spec(n).len());
        lemma_fits_join(b@, pos as int, varint_spec(n), s@);
    }
    Some((s, body + n as usize))
}

fn read_signature(b: &Vec<u8>, pos: usize) -> (r: Option<(Signature, usize)>)
    requires
        pos <= b@.len(),
    ensures
        r is Some ==> fits(b@, pos as int, signature_enc(r->Some_0.0)) && r->Some_0.1 == pos
            + signature_enc(r->Some_0.0).len(),
        forall|x: Signature| fits(b@, pos as int, #[trigger] signature_enc(x)) ==> r is Some && r->Some_0.0 == x,
{
    let _ = b.len();
    proof {
        assert forall|x: Signature| fits(b@, pos as int, #[trigger] signature_enc(x)) implies fits(
            b@,
            pos as int,
            b32_enc(x.commit),
        ) && fits(b@, pos + 32, b32_enc(x.response)) by {
            lemma_fits_cat(b@, pos as int, b32_enc(x.commit), b32_enc(x.response));
        }
    }
    let (commit, p1) = match read_word(b, pos) {
        Some(v) => v,
        None => return None,
    };
    let (response, p2) = match read_word(b, p1) {
        Some(v) => v,
        None => return None,
    };
    let s = Signature { commit, response };
    proof {
        lemma_fits_join(b@, pos as int, b32_enc(commit), b32_enc(response));
    }
    Some((s, p2))
}

fn read_call(b: &Vec<u8>, pos: usize) -> (r: Option<(ContractCall, usize)>)
    requires
        pos <= b@.len(),
    ensures
        r is Some ==> fits(b@, pos as int, call_enc(r->Some_0.0@)) && r->Some_0.1 == pos + call_enc(
            r->Some_0.0@,
        ).len(),
        forall|x: CallView| fits(b@, pos as int, #[trigger] call_enc(x)) ==> r is Some && r->Some_0.0@ == x,
{
    let _ = b.len();
    proof {
        assert forall|x: CallView| fits(b@, pos as int, #[trigger] call_enc(x)) implies fits(
            b@,
            pos as int,
            b32_enc(x.contract_id),
        ) && fits(b@, pos + 32, bytes_enc(x.data)) by {
            lemma_fits_cat(b@, pos as int, b32_enc(x.contract_id), bytes_enc(x.data));
        }
    }
    let (contract_id, p1) = match read_word(b, pos) {
        Some(v) => v,
        None => return None,
    };
    let (data, p2) = match read_byte_string(b, p1) {
        Some(v) => v,
        None => return None,
    };
    let c = ContractCall { contract_id, data };
    proof {
        lemma_fits_join(b@, pos as int, b32_enc(contract_id), bytes_enc(c.data@));
    }
    Some((c, p2))
}

fn put_words(out: &mut Vec<u8>, s: &Vec<Bytes32>)
    ensures
        final(out)@ == old(out)@ + words_enc(s@),
{
    let ghost start = out@;
    let ghost v = s@;
    put_varint(out, s.len() as u64);
    let mut i: usize = 0;
    while i < s.len()
        invariant
            0 <= i <= s.len(),
            v == s@,
            out@ == start + varint_spec(s@.len() as u64) + word_parts(v.take(i as int)).flatten(),
        decreases s.len() - i,
    {
        put_b32(out, s[i]);
        proof {
            assert(word_parts(v.take(i + 1)) =~= word_parts(v.take(i as int)).push(b32_enc(v[i as int])));
            word_parts(v.take(i as int)).lemma_flatten_push(b32_enc(v[i as int]));
        }
        i += 1;
        assert(out@ =~= start + varint_spec(s@.len() as u64) + word_parts(v.take(i as int)).flatten());
    }
    assert(v.take(i as int) =~= v);
    assert(out@ =~= start + words_enc(v));
}

fn read_words(b: &Vec<u8>, pos: usize) -> (r: Option<(Vec<Bytes32>, usize)>)
    requires
        pos <= b@.len(),
    ensures
        r is Some ==> fits(b@, pos as int, words_enc(r->Some_0.0@)) && r->Some_0.1 == pos
            + words_enc(r->Some_0.0@).len(),
        forall|t: Seq<Bytes32>| fits(b@, pos as int, #[trigger] words_enc(t)) ==> r is Some && r->Some_0.0@ == t,
{
    let _ = b.len();
    let (n, k) = match read_varint(b, pos) {
        Some(v) => v,
        None => {
            proof {
                assert forall|t: Seq<Bytes32>| fits(b@, pos as int, #[trigger] words_enc(t)) implies false by {
                    lemma_fits_split(b@, pos as int, varint_spec(t.len() as u64), word_parts(t).flatten());
                }
            }
            return None;
        },
    };
    let start = pos + k;
    proof {
        assert forall|t: Seq<Bytes32>| fits(b@, pos as int, #[trigger] words_enc(t)) implies n == t.len()
            && fits(b@, start as int, word_parts(t).flatten()) by {
            lemma_fits_split(b@, pos as int, varint_spec(t.len() as u64), word_parts(t).flatten());
            assert forall|j: int| 0 <= j < word_parts(t).len() implies (#[trigger] word_parts(t)[j]).len() >= 1 by {
                assert(word_parts(t)[j] == b32_enc(t[j]));
            }
            lemma_flatten_len_ge(word_parts(t));
        }
    }
    let mut cur = start;
    let mut items: Vec<Bytes32> = Vec::new();
    let mut i: u64 = 0;
    proof {
        assert(b@.subrange(start as int, start as int) =~= Seq::<u8>::empty());
    }
    while i < n
        invariant
            b@.len() <= usize::MAX,
            start == pos + k,
            start <= b@.len(),
            b@.subrange(pos as int, start as int) == varint_spec(n),
            items@.len() == i,
            i <= n,
            fits(b@, start as int, word_parts(items@).flatten()),
            cur == start + word_parts(items@).flatten().len(),
            forall|t: Seq<Bytes32>|
                fits(b@, pos as int, #[trigger] words_enc(t)) ==> n == t.len() && fits(
                    b@,
                    start as int,
                    word_parts(t).flatten(),
                ) && items@ == t.take(i as int),
        decreases n - i,
    {
        proof {
            assert forall|t: Seq<Bytes32>| fits(b@, pos as int, #[trigger] words_enc(t)) implies fits(
                b@,
                cur as int,
                b32_enc(t[i as int]),
            ) by {
                lemma_item_fits(b@, start as int, word_parts(t), i as int);
                assert(word_parts(t).take(i as int) =~= word_parts(items@));
            }
        }
        let (x, next) = match read_word(b, cur) {
            Some(v) => v,
            None => return None,
        };
        proof {
            assert(items@.push(x) =~= items@.push(x));
            assert(word_parts(items@.push(x)) =~= word_parts(items@).push(b32_enc(x)));
            word_parts(items@).lemma_flatten_push(b32_enc(x));
            lemma_fits_join(b@, start as int, word_parts(items@).flatten(), b32_enc(x));
            assert forall|t: Seq<Bytes32>| fits(b@, pos as int, #[trigger] words_enc(t)) implies items@.push(x)
                == t.take(i + 1) by {
                assert(t.take(i + 1) =~= t.take(i as int).push(t[i as int]));
            }
        }
        items.push(x);
        cur = next;
        i += 1;
    }
    proof {
        lemma_fits_join(b@, pos as int, varint_spec(n), word_parts(items@).flatten());
        assert forall|t: Seq<Bytes32>| fits(b@, pos as int, #[trigger] words_enc(t)) implies items@ == t by {
            assert(t.take(n as int) =~= t);
        }
    }
    Some((items, cur))
}

fn put_byte_strings(out: &mut Vec<u8>, s: &Vec<Vec<u8>>)
    ensures
        final(out)@ == old(out)@ + byte_strings_enc(byte_strings_view(s@)),
{
    let ghost start = out@;
    let ghost v = byte_strings_view(s@);
    put_varint(out, s.len() as u64);
    let mut i: usize = 0;
    while i < s.len()
        invariant
            0 <= i <= s.len(),
            v == byte_strings_view(s@),
            out@ == start + varint_spec(s@.len() as u64) + byte_string_parts(v.take(i as int)).flatten(),
        decreases s.len() - i,
    {
        put_byte_string(out, &s[i]);
        proof {
            assert(byte_string_parts(v.take(i + 1)) =~= byte_string_parts(v.take(i as int)).push(bytes_enc(v[i as int])));
            byte_string_parts(v.take(i as int)).lemma_flatten_push(bytes_enc(v[i as int]));
        }
        i += 1;
        assert(out@ =~= start + varint_spec(s@.len() as u64) + byte_string_parts(v.take(i as int)).flatten());
    }
    assert(v.take(i as int) =~= v);
    assert(out@ =~= start + byte_strings_enc(v));
}

fn read_byte_strings(b: &Vec<u8>, pos: usize) -> (r: Option<(Vec<Vec<u8>>, usize)>)
    requires
        pos <= b@.len(),
    ensures
        r is Some ==> fits(b@, pos as int, byte_strings_enc(byte_strings_view(r->Some_0.0@))) && r->Some_0.1 == pos
            + byte_strings_enc(byte_strings_view(r->Some_0.0@)).len(),
        forall|t: Seq<Seq<u8>>| fits(b@, pos as int, #[trigger] byte_strings_enc(t)) ==> r is Some && byte_strings_view(r->Some_0.0@) == t,
{
    let _ = b.len();
    let (n, k) = match read_varint(b, pos) {
        Some(v) => v,
        None => {
            proof {
                assert forall|t: Seq<Seq<u8>>| fits(b@, pos as int, #[trigger] byte_strings_enc(t)) implies false by {
                    lemma_fits_split(b@, pos as int, varint_spec(t.len() as u64), byte_string_parts(t).flatten());
                }
            }
            return None;
        },
    };
    let start = pos + k;
    proof {
        assert forall|t: Seq<Seq<u8>>| fits(b@, pos as int, #[trigger] byte_strings_enc(t)) implies n == t.len()
            && fits(b@, start as int, byte_string_parts(t).flatten()) by {
            lemma_fits_split(b@, pos as int, varint_spec(t.len() as u64), byte_string_parts(t).flatten());
            assert forall|j: int| 0 <= j < byte_string_parts(t).len() implies (#[trigger] byte_string_parts(t)[j]).len() >= 1 by {
                assert(byte_string_parts(t)[j] == bytes_enc(t[j]));
            }
            lemma_flatten_len_ge(byte_string_parts(t));
        }
    }
    let mut cur = start;
    let mut items: Vec<Vec<u8>> = Vec::new();
    let mut i: u64 = 0;
    proof {
        assert(b@.subrange(start as int, start as int) =~= Seq::<u8>::empty());
    }
    while i < n
        invariant
            b@.len() <= usize::MAX,
            start == pos + k,
            start <= b@.len(),
            b@.subrange(pos as int, start as int) == varint_spec(n),
            items@.len() == i,
            i <= n,
            fits(b@, start as int, byte_string_parts(byte_strings_view(items@)).flatten()),
            cur == start + byte_string_parts(byte_strings_view(items@)).flatten().len(),
            forall|t: Seq<Seq<u8>>|
                fits(b@, pos as int, #[trigger] byte_strings_enc(t)) ==> n == t.len() && fits(
                    b@,
                    start as int,
                    byte_string_parts(t).flatten(),
                ) && byte_strings_view(items@) == t.take(i as int),
        decreases n - i,
    {
        proof {
            assert forall|t: Seq<Seq<u8>>| fits(b@, pos as int, #[trigger] byte_strings_enc(t)) implies fits(
                b@,
                cur as int,
                bytes_enc(t[i as int]),
            ) by {
                lemma_item_fits(b@, start as int, byte_string_parts(t), i as int);
                assert(byte_string_parts(t).take(i as int) =~= byte_string_parts(byte_strings_view(items@)));
            }
        }
        let (x, next) = match read_byte_string(b, cur) {
            Some(v) => v,
            None => return None,
        };
        proof {
            assert(byte_strings_view(items@.push(x)) =~= byte_strings_view(items@).push(x@));
            assert(byte_string_parts(byte_strings_view(items@).push(x@)) =~= byte_string_parts(byte_strings_view(items@)).push(bytes_enc(x@)));
            byte_string_parts(byte_strings_view(items@)).lemma_flatten_push(bytes_enc(x@));
            lemma_fits_join(b@, start as int, byte_string_parts(byte_strings_view(items@)).flatten(), bytes_enc(x@));
            assert forall|t: Seq<Seq<u8>>| fits(b@, pos as int, #[trigger] byte_strings_enc(t)) implies byte_strings_view(items@).push(x@)
                == t.take(i + 1) by {
                assert(t.take(i + 1) =~= t.take(i as int).push(t[i as int]));
            }
        }
        items.push(x);
        cur = next;
        i += 1;
    }
    proof {
        lemma_fits_join(b@, pos as int, varint_spec(n), byte_string_parts(byte_strings_view(items@)).flatten());
        assert forall|t: Seq<Seq<u8>>| fits(b@, pos as int, #[trigger] byte_strings_enc(t)) implies byte_strings_view(items@) == t by {
            assert(t.take(n as int) =~= t);
        }
    }
    Some((items, cur))
}

fn put_proof_sets(out: &mut Vec<u8>, s: &Vec<Vec<Vec<u8>>>)
    ensures
        final(out)@ == old(out)@ + proof_sets_enc(proof_sets_view(s@)),
{
    let ghost start = out@;
    let ghost v = proof_sets_view(s@);
    put_varint(out, s.len() as u64);
    let mut i: usize = 0;
    while i < s.len()
        invariant
            0 <= i <= s.len(),
            v == proof_sets_view(s@),
            out@ == start + varint_spec(s@.len() as u64) + proof_set_parts(v.take(i as int)).flatten(),
        decreases s.len() - i,
    {
        put_byte_strings(out, &s[i]);
        proof {
            assert(proof_set_parts(v.take(i + 1)) =~= proof_set_parts(v.take(i as int)).push(byte_strings_enc(v[i as int])));
            proof_set_parts(v.take(i as int)).lemma_flatten_push(byte_strings_enc(v[i as int]));
        }
        i += 1;
        assert(out@ =~= start + varint_spec(s@.len() as u64) + proof_set_parts(v.take(i as int)).flatten());
    }
    assert(v.take(i as int) =~= v);
    assert(out@ =~= start + proof_sets_enc(v));
}

fn read_proof_sets(b: &Vec<u8>, pos: usize) -> (r: Option<(Vec<Vec<Vec<u8>>>, usize)>)
    requires
        pos <= b@.len(),
    ensures
        r is Some ==> fits(b@, pos as int, proof_sets_enc(proof_sets_view(r->Some_0.0@))) && r->Some_0.1 == pos
            + proof_sets_enc(proof_sets_view(r->Some_0.0@)).len(),
        forall|t: Seq<Seq<Seq<u8>>>| fits(b@, pos as int, #[trigger] proof_sets_enc(t)) ==> r is Some && proof_sets_view(r->Some_0.0@) == t,
{
    let _ = b.len();
    let (n, k) = match read_varint(b, pos) {
        Some(v) => v,
        None => {
            proof {
                assert forall|t: Seq<Seq<Seq<u8>>>| fits(b@, pos as int, #[trigger] proof_sets_enc(t)) implies false by {
                    lemma_fits_split(b@, pos as int, varint_spec(t.len() as u64), proof_set_parts(t).flatten());
                }
            }
            return None;
        },
    };
    let start = pos + k;
    proof {
        assert forall|t: Seq<Seq<Seq<u8>>>| fits(b@, pos as int, #[trigger] proof_sets_enc(t)) implies n == t.len()
            && fits(b@, start as int, proof_set_parts(t).flatten()) by {
            lemma_fits_split(b@, pos as int, varint_spec(t.len() as u64), proof_set_parts(t).flatten());
            assert forall|j: int| 0 <= j < proof_set_parts(t).len() implies (#[trigger] proof_set_parts(t)[j]).len() >= 1 by {
                assert(proof_set_parts(t)[j] == byte_strings_enc(t[j]));
            }
            lemma_flatten_len_ge(proof_set_parts(t));
        }
    }
    let mut cur = start;
    let mut items: Vec<Vec<Vec<u8>>> = Vec::new();
    let mut i: u64 = 0;
    proof {
        assert(b@.subrange(start as int, start as int) =~= Seq::<u8>::empty());
    }
    while i < n
        invariant
            b@.len() <= usize::MAX,
            start == pos + k,
            start <= b@.len(),
            b@.subrange(pos as int, start as int) == varint_spec(n),
            items@.len() == i,
            i <= n,
            fits(b@, start as int, proof_set_parts(proof_sets_view(items@)).flatten()),
            cur == start + proof_set_parts(proof_sets_view(items@)).flatten().len(),
            forall|t: Seq<Seq<Seq<u8>>>|
                fits(b@, pos as int, #[trigger] proof_sets_enc(t)) ==> n == t.len() && fits(
                    b@,
                    start as int,
                    proof_set_parts(t).flatten(),
                ) && proof_sets_view(items@) == t.take(i as int),
        decreases n - i,
    {
        proof {
            assert forall|t: Seq<Seq<Seq<u8>>>| fits(b@, pos as int, #[trigger] proof_sets_enc(t)) implies fits(
                b@,
                cur as int,
                byte_strings_enc(t[i as int]),
            ) by {
                lemma_item_fits(b@, start as int, proof_set_parts(t), i as int);
                assert(proof_set_parts(t).take(i as int) =~= proof_set_parts(proof_sets_view(items@)));
            }
        }
        let (x, next) = match read_byte_strings(b, cur) {
            Some(v) => v,
            None => return None,
        };
        proof {
            assert(proof_sets_view(items@.push(x)) =~= proof_sets_view(items@).push(byte_strings_view(x@)));
            assert(proof_set_parts(proof_sets_view(items@).push(byte_strings_view(x@))) =~= proof_set_parts(proof_sets_view(items@)).push(byte_strings_enc(byte_strings_view(x@))));
            proof_set_parts(proof_sets_view(items@)).lemma_flatten_push(byte_strings_enc(byte_strings_view(x@)));
            lemma_fits_join(b@, start as int, proof_set_parts(proof_sets_view(items@)).flatten(), byte_strings_enc(byte_strings_view(x@)));
            assert forall|t: Seq<Seq<Seq<u8>>>| fits(b@, pos as int, #[trigger] proof_sets_enc(t)) implies proof_sets_view(items@).push(byte_strings_view(x@))
                == t.take(i + 1) by {
                assert(t.take(i + 1) =~= t.take(i as int).push(t[i as int]));
            }
        }
        items.push(x);
        cur = next;
        i += 1;
    }
    proof {
        lemma_fits_join(b@, pos as int, varint_spec(n), proof_set_parts(proof_sets_view(items@)).flatten());
        assert forall|t: Seq<Seq<Seq<u8>>>| fits(b@, pos as int, #[trigger] proof_sets_enc(t)) implies proof_sets_view(items@) == t by {
            assert(t.take(n as int) =~= t);
        }
    }
    Some((items, cur))
}

fn put_signatures(out: &mut Vec<u8>, s: &Vec<Signature>)
    ensures
        final(out)@ == old(out)@ + signatures_enc(s@),
{
    let ghost start = out@;
    let ghost v = s@;
    put_varint(out, s.len() as u64);
    let mut i: usize = 0;
    while i < s.len()
        invariant
            0 <= i <= s.len(),
            v == s@,
            out@ == start + varint_spec(s@.len() as u64) + signature_parts(v.take(i as int)).flatten(),
        decreases s.len() - i,
    {
        put_signature(out, s[i]);
        proof {
            assert(signature_parts(v.take(i + 1)) =~= signature_parts(v.take(i as int)).push(signature_enc(v[i as int])));
            signature_parts(v.take(i as int)).lemma_flatten_push(signature_enc(v[i as int]));
        }
        i += 1;
        assert(out@ =~= start + varint_spec(s@.len() as u64) + signature_parts(v.take(i as int)).flatten());
    }
    assert(v.take(i as int) =~= v);
    assert(out@ =~= start + signatures_enc(v));
}

fn read_signatures(b: &Vec<u8>, pos: usize) -> (r: Option<(Vec<Signature>, usize)>)
    requires
        pos <= b@.len(),
    ensures
        r is Some ==> fits(b@, pos as int, signatures_enc(r->Some_0.0@)) && r->Some_0.1 == pos
            + signatures_enc(r->Some_0.0@).len(),
        forall|t: Seq<Signature>| fits(b@, pos as int, #[trigger] signatures_enc(t)) ==> r is Some && r->Some_0.0@ == t,
{
    let _ = b.len();
    let (n, k) = match read_varint(b, pos) {
        Some(v) => v,
        None => {
            proof {
                assert forall|t: Seq<Signature>| fits(b@, pos as int, #[trigger] signatures_enc(t)) implies false by {
                    lemma_fits_split(b@, pos as int, varint_spec(t.len() as u64), signature_parts(t).flatten());
                }
            }
            return None;
        },
    };
    let start = pos + k;
    proof {
        assert forall|t: Seq<Signature>| fits(b@, pos as int, #[trigger] signatures_enc(t)) implies n == t.len()
            && fits(b@, start as int, signature_parts(t).flatten()) by {
            lemma_fits_split(b@, pos as int, varint_spec(t.len() as u64), signature_parts(t).flatten());
            assert forall|j: int| 0 <= j < signature_parts(t).len() implies (#[trigger] signature_parts(t)[j]).len() >= 1 by {
                assert(signature_parts(t)[j] == signature_enc(t[j]));
            }
            lemma_flatten_len_ge(signature_parts(t));
        }
    }
    let mut cur = start;
    let mut items: Vec<Signature> = Vec::new();
    let mut i: u64 = 0;
    proof {
        assert(b@.subrange(start as int, start as int) =~= Seq::<u8>::empty());
    }
    while i < n
        invariant
            b@.len() <= usize::MAX,
            start == pos + k,
            start <= b@.len(),
            b@.subrange(pos as int, start as int) == varint_spec(n),
            items@.len() == i,
            i <= n,
            fits(b@, start as int, signature_parts(items@).flatten()),
            cur == start + signature_parts(items@).flatten().len(),
            forall|t: Seq<Signature>|
                fits(b@, pos as int, #[trigger] signatures_enc(t)) ==> n == t.len() && fits(
                    b@,
                    start as int,
                    signature_parts(t).flatten(),
                ) && items@ == t.take(i as int),
        decreases n - i,
    {
        proof {
            assert forall|t: Seq<Signature>| fits(b@, pos as int, #[trigger] signatures_enc(t)) implies fits(
                b@,
                cur as int,
                signature_enc(t[i as int]),
            ) by {
                lemma_item_fits(b@, start as int, signature_parts(t), i as int);
                assert(signature_parts(t).take(i as int) =~= signature_parts(items@));
            }
        }
        let (x, next) = match read_signature(b, cur) {
            Some(v) => v,
            None => return None,
        };
        proof {
            assert(items@.push(x) =~= items@.push(x));
            assert(signature_parts(items@.push(x)) =~= signature_parts(items@).push(signature_enc(x)));
            signature_parts(items@).lemma_flatten_push(signature_enc(x));
            lemma_fits_join(b@, start as int, signature_parts(items@).flatten(), signature_enc(x));
            assert forall|t: Seq<Signature>| fits(b@, pos as int, #[trigger] signatures_enc(t)) implies items@.push(x)
                == t.take(i + 1) by {
                assert(t.take(i + 1) =~= t.take(i as int).push(t[i as int]));
            }
        }
        items.push(x);
        cur = next;
        i += 1;
    }
    proof {
        lemma_fits_join(b@, pos as int, varint_spec(n), signature_parts(items@).flatten());
        assert forall|t: Seq<Signature>| fits(b@, pos as int, #[trigger] signatures_enc(t)) implies items@ == t by {
            assert(t.take(n as int) =~= t);
        }
    }
    Some((items, cur))
}

fn put_signature_sets(out: &mut Vec<u8>, s: &Vec<Vec<Signature>>)
    ensures
        final(out)@ == old(out)@ + signature_sets_enc(signature_sets_view(s@)),
{
    let ghost start = out@;
    let ghost v = signature_sets_view(s@);
    put_varint(out, s.len() as u64);
    let mut i: usize = 0;
    while i < s.len()
        invariant
            0 <= i <= s.len(),
            v == signature_sets_view(s@),
            out@ == start + varint_spec(s@.len() as u64) + signature_set_parts(v.take(i as int)).flatten(),
        decreases s.len() - i,
    {
        put_signatures(out, &s[i]);
        proof {
            assert(signature_set_parts(v.take(i + 1)) =~= signature_set_parts(v.take(i as int)).push(signatures_enc(v[i as int])));
            signature_set_parts(v.take(i as int)).lemma_flatten_push(signatures_enc(v[i as int]));
        }
        i += 1;
        assert(out@ =~= start + varint_spec(s@.len() as u64) + signature_set_parts(v.take(i as int)).flatten());
    }
    assert(v.take(i as int) =~= v);
    assert(out@ =~= start + signature_sets_enc(v));
}

fn read_signature_sets(b: &Vec<u8>, pos: usize) -> (r: Option<(Vec<Vec<Signature>>, usize)>)
    requires
        pos <= b@.len(),
    ensures
        r is Some ==> fits(b@, pos as int, signature_sets_enc(signature_sets_view(r->Some_0.0@))) && r->Some_0.1 == pos
            + signature_sets_enc(signature_sets_view(r->Some_0.0@)).len(),
        forall|t: Seq<Seq<Signature>>| fits(b@, pos as int, #[trigger] signature_sets_enc(t)) ==> r is Some && signature_sets_view(r->Some_0.0@) == t,
{
    let _ = b.len();
    let (n, k) = match read_varint(b, pos) {
        Some(v) => v,
        None => {
            proof {
                assert forall|t: Seq<Seq<Signature>>| fits(b@, pos as int, #[trigger] signature_sets_enc(t)) implies false by {
                    lemma_fits_split(b@, pos as int, varint_spec(t.len() as u64), signature_set_parts(t).flatten());
                }
            }
            return None;
        },
    };
    let start = pos + k;
    proof {
        assert forall|t: Seq<Seq<Signature>>| fits(b@, pos as int, #[trigger] signature_sets_enc(t)) implies n == t.len()
            && fits(b@, start as int, signature_set_parts(t).flatten()) by {
            lemma_fits_split(b@, pos as int, varint_spec(t.len() as u64), signature_set_parts(t).flatten());
            assert forall|j: int| 0 <= j < signature_set_parts(t).len() implies (#[trigger] signature_set_parts(t)[j]).len() >= 1 by {
                assert(signature_set_parts(t)[j] == signatures_enc(t[j]));
            }
            lemma_flatten_len_ge(signature_set_parts(t));
        }
    }
    let mut cur = start;
    let mut items: Vec<Vec<Signature>> = Vec::new();
    let mut i: u64 = 0;
    proof {
        assert(b@.subrange(start as int, start as int) =~= Seq::<u8>::empty());
    }
    while i < n
        invariant
            b@.len() <= usize::MAX,
            start == pos + k,
            start <= b@.len(),
            b@.subrange(pos as int, start as int) == varint_spec(n),
            items@.len() == i,
            i <= n,
            fits(b@, start as int, signature_set_parts(signature_sets_view(items@)).flatten()),
            cur == start + signature_set_parts(signature_sets_view(items@)).flatten().len(),
            forall|t: Seq<Seq<Signature>>|
                fits(b@, pos as int, #[trigger] signature_sets_enc(t)) ==> n == t.len() && fits(
                    b@,
                    start as int,
                    signature_set_parts(t).flatten(),
                ) && signature_sets_view(items@) == t.take(i as int),
        decreases n - i,
    {
        proof {
            assert forall|t: Seq<Seq<Signature>>| fits(b@, pos as int, #[trigger] signature_sets_enc(t)) implies fits(
                b@,
                cur as int,
                signatures_enc(t[i as int]),
            ) by {
                lemma_item_fits(b@, start as int, signature_set_parts(t), i as int);
                assert(signature_set_parts(t).take(i as int) =~= signature_set_parts(signature_sets_view(items@)));
            }
        }
        let (x, next) = match read_signatures(b, cur) {
            Some(v) => v,
            None => return None,
        };
        proof {
            assert(signature_sets_view(items@.push(x)) =~= signature_sets_view(items@).push(x@));
            assert(signature_set_parts(signature_sets_view(items@).push(x@)) =~= signature_set_parts(signature_sets_view(items@)).push(signatures_enc(x@)));
            signature_set_parts(signature_sets_view(items@)).lemma_flatten_push(signatures_enc(x@));
            lemma_fits_join(b@, start as int, signature_set_parts(signature_sets_view(items@)).flatten(), signatures_enc(x@));
            assert forall|t: Seq<Seq<Signature>>| fits(b@, pos as int, #[trigger] signature_sets_enc(t)) implies signature_sets_view(items@).push(x@)
                == t.take(i + 1) by {
                assert(t.take(i + 1) =~= t.take(i as int).push(t[i as int]));
            }
        }
        items.push(x);
        cur = next;
        i += 1;
    }
    proof {
        lemma_fits_join(b@, pos as int, varint_spec(n), signature_set_parts(signature_sets_view(items@)).flatten());
        assert forall|t: Seq<Seq<Signature>>| fits(b@, pos as int, #[trigger] signature_sets_enc(t)) implies signature_sets_view(items@) == t by {
            assert(t.take(n as int) =~= t);
        }
    }
    Some((items, cur))
}

fn put_calls(out: &mut Vec<u8>, s: &Vec<ContractCall>)
    ensures
        final(out)@ == old(out)@ + calls_enc(calls_view(s@)),
{
    let ghost start = out@;
    let ghost v = calls_view(s@);
    put_varint(out, s.len() as u64);
    let mut i: usize = 0;
    while i < s.len()
        invariant
            0 <= i <= s.len(),
            v == calls_view(s@),
            out@ == start + varint_spec(s@.len() as u64) + call_parts(v.take(i as int)).flatten(),
        decreases s.len() - i,
    {
        put_call(out, &s[i]);
        proof {
            assert(call_parts(v.take(i + 1)) =~= call_parts(v.take(i as int)).push(call_enc(v[i as int])));
            call_parts(v.take(i as int)).lemma_flatten_push(call_enc(v[i as int]));
        }
        i += 1;
        assert(out@ =~= start + varint_spec(s@.len() as u64) + call_parts(v.take(i as int)).flatten());
    }
    assert(v.take(i as int) =~= v);
    assert(out@ =~= start + calls_enc(v));
}

fn read_calls(b: &Vec<u8>, pos: usize) -> (r: Option<(Vec<ContractCall>, usize)>)
    requires
        pos <= b@.len(),
    ensures
        r is Some ==> fits(b@, pos as int, calls_enc(calls_view(r->Some_0.0@))) && r->Some_0.1 == pos
            + calls_enc(calls_view(r->Some_0.0@)).len(),
        forall|t: Seq<CallView>| fits(b@, pos as int, #[trigger] calls_enc(t)) ==> r is Some && calls_view(r->Some_0.0@) == t,
{
    let _ = b.len();
    let (n, k) = match read_varint(b, pos) {
        Some(v) => v,
        None => {
            proof {
                assert forall|t: Seq<CallView>| fits(b@, pos as int, #[trigger] calls_enc(t)) implies false by {
                    lemma_fits_split(b@, pos as int, varint_spec(t.len() as u64), call_parts(t).flatten());
                }
            }
            return None;
        },
    };
    let start = pos + k;
    proof {
        assert forall|t: Seq<CallView>| fits(b@, pos as int, #[trigger] calls_enc(t)) implies n == t.len()
            && fits(b@, start as int, call_parts(t).flatten()) by {
            lemma_fits_split(b@, pos as int, varint_spec(t.len() as u64), call_parts(t).flatten());
            assert forall|j: int| 0 <= j < call_parts(t).len() implies (#[trigger] call_parts(t)[j]).len() >= 1 by {
                assert(call_parts(t)[j] == call_enc(t[j]));
            }
            lemma_flatten_len_ge(call_parts(t));
        }
    }
    let mut cur = start;
    let mut items: Vec<ContractCall> = Vec::new();
    let mut i: u64 = 0;
    proof {
        assert(b@.subrange(start as int, start as int) =~= Seq::<u8>::empty());
    }
    while i < n
        invariant
            b@.len() <= usize::MAX,
            start == pos + k,
            start <= b@.len(),
            b@.subrange(pos as int, start as int) == varint_spec(n),
            items@.len() == i,
            i <= n,
            fits(b@, start as int, call_parts(calls_view(items@)).flatten()),
            cur == start + call_parts(calls_view(items@)).flatten().len(),
            forall|t: Seq<CallView>|
                fits(b@, pos as int, #[trigger] calls_enc(t)) ==> n == t.len() && fits(
                    b@,
                    start as int,
                    call_parts(t).flatten(),
                ) && calls_view(items@) == t.take(i as int),
        decreases n - i,
    {
        proof {
            assert forall|t: Seq<CallView>| fits(b@, pos as int, #[trigger] calls_enc(t)) implies fits(
                b@,
                cur as int,
                call_enc(t[i as int]),
            ) by {
                lemma_item_fits(b@, start as int, call_parts(t), i as int);
                assert(call_parts(t).take(i as int) =~= call_parts(calls_view(items@)));
            }
        }
        let (x, next) = match read_call(b, cur) {
            Some(v) => v,
            None => return None,
        };
        proof {
            assert(calls_view(items@.push(x)) =~= calls_view(items@).push(x@));
            assert(call_parts(calls_view(items@).push(x@)) =~= call_parts(calls_view(items@)).push(call_enc(x@)));
            call_parts(calls_view(items@)).lemma_flatten_push(call_enc(x@));
            lemma_fits_join(b@, start as int, call_parts(calls_view(items@)).flatten(), call_enc(x@));
            assert forall|t: Seq<CallView>| fits(b@, pos as int, #[trigger] calls_enc(t)) implies calls_view(items@).push(x@)
                == t.take(i + 1) by {
                assert(t.take(i + 1) =~= t.take(i as int).push(t[i as int]));
            }
        }
        items.push(x);
        cur = next;
        i += 1;
    }
    proof {
        lemma_fits_join(b@, pos as int, varint_spec(n), call_parts(calls_view(items@)).flatten());
        assert forall|t: Seq<CallView>| fits(b@, pos as int, #[trigger] calls_enc(t)) implies calls_view(items@) == t by {
            assert(t.take(n as int) =~= t);
        }
    }
    Some((items, cur))
}

/// Encodes a transaction.
pub fn encode_transaction(tx: &Transaction) -> (r: Vec<u8>)
    ensures
        r@ == tx_enc(tx@),
{
    let mut out: Vec<u8> = Vec::new();
    put_calls(&mut out, &tx.calls);
    put_proof_sets(&mut out, &tx.proofs);
    put_signature_sets(&mut out, &tx.signatures);
    assert(out@ =~= tx_enc(tx@));
    out
}

/// Decodes a transaction that fills `b`.
pub fn decode_transaction(b: &Vec<u8>) -> (r: Option<Transaction>)
    ensures
        r is Some ==> tx_enc(r->Some_0@) == b@,
        forall|t: TxView| #[trigger] tx_enc(t) == b@ ==> r is Some && r->Some_0@ == t,
{
    proof {
        assert(b@.subrange(0, b@.len() as int) =~= b@);
        assert forall|t: TxView| #[trigger] tx_enc(t) == b@ implies {
            let e1 = calls_enc(t.calls);
            let e2 = proof_sets_enc(t.proofs);
            let e3 = signature_sets_enc(t.signatures);
            &&& fits(b@, 0, e1)
            &&& fits(b@, e1.len() as int, e2)
            &&& fits(b@, (e1.len() + e2.len()) as int, e3)
            &&& e1.len() + e2.len() + e3.len() == b@.len()
        } by {
            let e1 = calls_enc(t.calls);
            let e2 = proof_sets_enc(t.proofs);
            let e3 = signature_sets_enc(t.signatures);
            lemma_fits_cat(b@, 0, e1 + e2, e3);
            lemma_fits_cat(b@, 0, e1, e2);
        }
    }
    let (calls, p1) = match read_calls(b, 0) {
        Some(v) => v,
        None => return None,
    };
    let (proofs, p2) = match read_proof_sets(b, p1) {
        Some(v) => v,
        None => return None,
    };
    let (signatures, p3) = match read_signature_sets(b, p2) {
        Some(v) => v,
        None => return None,
    };
    if p3 != b.len() {
        return None;
    }
    let tx = Transaction { calls, proofs, signatures };
    proof {
        let e1 = calls_enc(tx@.calls);
        let e2 = proof_sets_enc(tx@.proofs);
        let e3 = signature_sets_enc(tx@.signatures);
        lemma_fits_join(b@, 0, e1, e2);
        lemma_fits_join(b@, 0, e1 + e2, e3);
    }
    Some(tx)
}

/// Encodes a half-swap.
pub fn encode_partial(p: &PartialSwapData) -> (r: Vec<u8>)
    ensures
        r@ == partial_enc(p@),
{
    let mut out = encode_params(&p.params);
    put_byte_strings(&mut out, &p.proofs);
    put_u64(&mut out, p.value_pair.0);
    put_u64(&mut out, p.value_pair.1);
    put_b32(&mut out, p.token_pair.0);
    put_b32(&mut out, p.token_pair.1);
    put_words(&mut out, &p.value_blinds);
    put_words(&mut out, &p.token_blinds);
    assert(out@ =~= partial_enc(p@));
    out
}

/// Decodes a half-swap that fills `b`.
pub fn decode_partial(b: &Vec<u8>) -> (r: Option<PartialSwapData>)
    ensures
        r is Some ==> partial_enc(r->Some_0@) == b@,
        forall|q: PartialView| #[trigger] partial_enc(q) == b@ ==> r is Some && r->Some_0@ == q,
{
    let _ = b.len();
    proof {
        assert(b@.subrange(0, b@.len() as int) =~= b@);
        assert forall|q: PartialView| #[trigger] partial_enc(q) == b@ implies {
            let e1 = params_enc(q.params);
            let e2 = e1 + byte_strings_enc(q.proofs);
            let e3 = e2 + le64(q.value_pair.0);
            let e4 = e3 + le64(q.value_pair.1);
            let e5 = e4 + b32_enc(q.token_pair.0);
            let e6 = e5 + b32_enc(q.token_pair.1);
            let e7 = e6 + words_enc(q.value_blinds);
            &&& fits(b@, 0, e1)
            &&& fits(b@, e1.len() as int, byte_strings_enc(q.proofs))
            &&& fits(b@, e2.len() as int, le64(q.value_pair.0))
            &&& fits(b@, e3.len() as int, le64(q.value_pair.1))
            &&& fits(b@, e4.len() as int, b32_enc(q.token_pair.0))
            &&& fits(b@, e5.len() as int, b32_enc(q.token_pair.1))
            &&& fits(b@, e6.len() as int, words_enc(q.value_blinds))
            &&& fits(b@, e7.len() as int, words_enc(q.token_blinds))
            &&& e7.len() + words_enc(q.token_blinds).len() == b@.len()
        } by {
            let e1 = params_enc(q.params);
            let e2 = e1 + byte_strings_enc(q.proofs);
            let e3 = e2 + le64(q.value_pair.0);
            let e4 = e3 + le64(q.value_pair.1);
            let e5 = e4 + b32_enc(q.token_pair.0);
            let e6 = e5 + b32_enc(q.token_pair.1);
            let e7 = e6 + words_enc(q.value_blinds);
            lemma_fits_cat(b@, 0, e7, words_enc(q.token_blinds));
            lemma_fits_cat(b@, 0, e6, words_enc(q.value_blinds));
            lemma_fits_cat(b@, 0, e5, b32_enc(q.token_pair.1));
            lemma_fits_cat(b@, 0, e4, b32_enc(q.token_pair.0));
            lemma_fits_cat(b@, 0, e3, le64(q.value_pair.1));
            lemma_fits_cat(b@, 0, e2, le64(q.value_pair.0));
            lemma_fits_cat(b@, 0, e1, byte_strings_enc(q.proofs));
        }
    }
    let (params, p1) = match read_params(b, 0) {
        Some(v) => v,
        None => return None,
    };
    let (proofs, p2) = match read_byte_strings(b, p1) {
        Some(v) => v,
        None => return None,
    };
    let v0 = match read_u64(b, p2) {
        Some(v) => v,
        None => return None,
    };
    let v1 = match read_u64(b, p2 + 8) {
        Some(v) => v,
        None => return None,
    };
    let (t0, p3) = match read_word(b, p2 + 16) {
        Some(v) => v,
        None => return None,
    };
    let (t1, p4) = match read_word(b, p3) {
        Some(v) => v,
        None => return None,
    };
    let (value_blinds, p5) = match read_words(b, p4) {
        Some(v) => v,
        None => return None,
    };
    let (token_blinds, p6) = match read_words(b, p5) {
        Some(v) => v,
        None => return None,
    };
    if p6 != b.len() {
        return None;
    }
    let p = PartialSwapData {
        params,
        proofs,
        value_pair: (v0, v1),
        token_pair: (t0, t1),
        value_blinds,
        token_blinds,
    };
    proof {
        let e1 = params_enc(p@.params);
        let e2 = e1 + byte_strings_enc(p@.proofs);
        let e3 = e2 + le64(v0);
        let e4 = e3 + le64(v1);
        let e5 = e4 + b32_enc(t0);
        let e6 = e5 + b32_enc(t1);
        let e7 = e6 + words_enc(p@.value_blinds);
        assert(fits(b@, p2 as int, le64(v0)));
        assert(fits(b@, p2 + 8, le64(v1)));
        lemma_fits_join(b@, 0, e1, byte_strings_enc(p@.proofs));
        lemma_fits_join(b@, 0, e2, le64(v0));
        lemma_fits_join(b@, 0, e3, le64(v1));
        lemma_fits_join(b@, 0, e4, b32_enc(t0));
        lemma_fits_join(b@, 0, e5, b32_enc(t1));
        lemma_fits_join(b@, 0, e6, words_enc(p@.value_blinds));
        lemma_fits_join(b@, 0, e7, words_enc(p@.token_blinds));
    }
    Some(p)
}

} // verus!
