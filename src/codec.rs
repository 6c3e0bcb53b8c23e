//! The byte encoding of a transfer's public payload: fields in declaration
//! order, integers little-endian, 32-byte values as their four limbs, and
//! every list and byte string behind a compact length prefix.
use vstd::prelude::*;
use vstd::seq_lib::lemma_flatten_concat;
use darkfi_serial::{deserialize_partial, serialize, VarInt};
use crate::model::{Bytes32, ClearInput, Input, Output, TransferParams};

verus! {

/// `n` as eight little-endian bytes.
pub open spec fn le64(n: u64) -> Seq<u8> {
    Seq::new(8, |j: int| (n >> ((8 * j) as u64)) as u8)
}

/// The compact length prefix: one byte below 0xfd, else a marker byte and
/// the value in two, four or eight little-endian bytes.
pub open spec fn varint_spec(n: u64) -> Seq<u8> {
    if n <= 0xfc {
        seq![n as u8]
    } else if n <= 0xffff {
        seq![0xfdu8] + le64(n).take(2)
    } else if n <= 0xffff_ffff {
        seq![0xfeu8] + le64(n).take(4)
    } else {
        seq![0xffu8] + le64(n)
    }
}

/// Relies on darkfi_serial::serialize of a `VarInt`: the compact length
/// prefix described by `varint_spec`, its wide forms written byte by byte
/// from the lowest (the library targets little-endian machines, where
/// `to_le` changes nothing).
#[verifier::external_body]
fn varint_bytes(n: u64) -> (r: Vec<u8>)
    ensures
        r@ == varint_spec(n),
{
    serialize(&VarInt(n))
}

/// Relies on darkfi_serial::serialize of a `u64`: byte `j` is
/// `(n >> 8 * j) & 0xff` on the little-endian machines the library targets.
#[verifier::external_body]
fn u64_bytes(n: u64) -> (r: Vec<u8>)
    ensures
        r@ == le64(n),
{
    serialize(&n)
}

/// Relies on darkfi_serial::deserialize_partial of a `u64`: it reads eight
/// little-endian bytes (on a little-endian machine), and fails only where
/// fewer are left.
#[verifier::external_body]
pub(crate) fn read_u64(b: &Vec<u8>, pos: usize) -> (r: Option<u64>)
    requires
        pos <= b@.len(),
    ensures
        r is Some <==> pos + 8 <= b@.len(),
        r is Some ==> le64(r->Some_0) == b@.subrange(pos as int, pos + 8),
        forall|n: u64|
            pos + 8 <= b@.len() && b@.subrange(pos as int, pos + 8) == #[trigger] le64(n) ==> r == Some(n),
{
    deserialize_partial::<u64>(&b[pos..]).ok().map(|d| d.0)
}

/// Relies on darkfi_serial::deserialize_partial of a `VarInt`: it accepts
/// exactly the minimal encodings, refusing a wide form whose value fits a
/// narrower one, and reports how many bytes it read.
#[verifier::external_body]
pub(crate) fn read_varint(b: &Vec<u8>, pos: usize) -> (r: Option<(u64, usize)>)
    requires
        pos <= b@.len(),
    ensures
        r is Some ==> pos + r->Some_0.1 <= b@.len() && b@.subrange(pos as int, pos + r->Some_0.1)
            == varint_spec(r->Some_0.0),
        forall|n: u64|
            fits(b@, pos as int, #[trigger] varint_spec(n)) ==> r == Some((n, varint_spec(n).len() as usize)),
{
    deserialize_partial::<VarInt>(&b[pos..]).ok().map(|d| (d.0.0, d.1))
}

/// `e` stands in `b` from `pos` on.
pub open spec fn fits(b: Seq<u8>, pos: int, e: Seq<u8>) -> bool {
    0 <= pos && pos + e.len() <= b.len() && b.subrange(pos, pos + e.len()) == e
}

pub open spec fn b32_enc(w: Bytes32) -> Seq<u8> {
    le64(w.l0) + le64(w.l1) + le64(w.l2) + le64(w.l3)
}

pub open spec fn clear_input_enc(c: ClearInput) -> Seq<u8> {
    le64(c.value) + b32_enc(c.token_id) + b32_enc(c.value_blind) + b32_enc(c.token_blind) + b32_enc(
        c.signature_public,
    )
}

pub open spec fn input_enc(i: Input) -> Seq<u8> {
    b32_enc(i.value_commit) + b32_enc(i.token_commit) + b32_enc(i.nullifier) + b32_enc(i.merkle_root)
        + b32_enc(i.spend_hook) + b32_enc(i.user_data_enc) + b32_enc(i.signature_public)
}

/// An output with its ciphertext as a sequence of bytes.
pub struct OutputView {
    pub value_commit: Bytes32,
    pub token_commit: Bytes32,
    pub coin: Bytes32,
    pub ciphertext: Seq<u8>,
    pub ephem_public: Bytes32,
}

impl View for Output {
    type V = OutputView;

    open spec fn view(&self) -> OutputView {
        OutputView {
            value_commit: self.value_commit,
            token_commit: self.token_commit,
            coin: self.coin,
            ciphertext: self.ciphertext@,
            ephem_public: self.ephem_public,
        }
    }
}

/// A transfer's payload with every list as a sequence.
pub struct ParamsView {
    pub clear_inputs: Seq<ClearInput>,
    pub inputs: Seq<Input>,
    pub outputs: Seq<OutputView>,
}

pub open spec fn outputs_view(s: Seq<Output>) -> Seq<OutputView> {
    Seq::new(s.len(), |j: int| s[j]@)
}

impl View for TransferParams {
    type V = ParamsView;

    open spec fn view(&self) -> ParamsView {
        ParamsView {
            clear_inputs: self.clear_inputs@,
            inputs: self.inputs@,
            outputs: outputs_view(self.outputs@),
        }
    }
}

pub open spec fn bytes_enc(s: Seq<u8>) -> Seq<u8> {
    varint_spec(s.len() as u64) + s
}

pub open spec fn output_enc(o: OutputView) -> Seq<u8> {
    b32_enc(o.value_commit) + b32_enc(o.token_commit) + b32_enc(o.coin) + bytes_enc(o.ciphertext)
        + b32_enc(o.ephem_public)
}

pub open spec fn clear_input_parts(s: Seq<ClearInput>) -> Seq<Seq<u8>> {
    Seq::new(s.len(), |j: int| clear_input_enc(s[j]))
}

pub open spec fn input_parts(s: Seq<Input>) -> Seq<Seq<u8>> {
    Seq::new(s.len(), |j: int| input_enc(s[j]))
}

pub open spec fn output_parts(s: Seq<OutputView>) -> Seq<Seq<u8>> {
    Seq::new(s.len(), |j: int| output_enc(s[j]))
}

/// A list: its length, then its items.
pub open spec fn list_enc(n: nat, parts: Seq<Seq<u8>>) -> Seq<u8> {
    varint_spec(n as u64) + parts.flatten()
}

pub open spec fn clear_inputs_enc(s: Seq<ClearInput>) -> Seq<u8> {
    list_enc(s.len(), clear_input_parts(s))
}

pub open spec fn inputs_enc(s: Seq<Input>) -> Seq<u8> {
    list_enc(s.len(), input_parts(s))
}

pub open spec fn outputs_enc(s: Seq<OutputView>) -> Seq<u8> {
    list_enc(s.len(), output_parts(s))
}

/// The encoding of a transfer's payload.
pub open spec fn params_enc(p: ParamsView) -> Seq<u8> {
    clear_inputs_enc(p.clear_inputs) + inputs_enc(p.inputs) + outputs_enc(p.outputs)
}

pub(crate) fn extend(out: &mut Vec<u8>, src: &Vec<u8>)
    ensures
        final(out)@ == old(out)@ + src@,
{
    let ghost start = out@;
    let mut i: usize = 0;
    while i < src.len()
        invariant
            0 <= i <= src.len(),
            out@ == start + src@.take(i as int),
        decreases src.len() - i,
    {
        out.push(src[i]);
        i += 1;
        assert(out@ =~= start + src@.take(i as int));
    }
    assert(src@.take(i as int) =~= src@);
}

pub(crate) fn put_u64(out: &mut Vec<u8>, n: u64)
    ensures
        final(out)@ == old(out)@ + le64(n),
{
    let bytes = u64_bytes(n);
    extend(out, &bytes);
}

pub(crate) fn put_varint(out: &mut Vec<u8>, n: u64)
    ensures
        final(out)@ == old(out)@ + varint_spec(n),
{
    let bytes = varint_bytes(n);
    extend(out, &bytes);
}

pub(crate) fn put_b32(out: &mut Vec<u8>, w: Bytes32)
    ensures
        final(out)@ == old(out)@ + b32_enc(w),
{
    let ghost start = out@;
    put_u64(out, w.l0);
    put_u64(out, w.l1);
    put_u64(out, w.l2);
    put_u64(out, w.l3);
    assert(out@ =~= start + b32_enc(w));
}

fn put_clear_input(out: &mut Vec<u8>, c: ClearInput)
    ensures
        final(out)@ == old(out)@ + clear_input_enc(c),
{
    let ghost start = out@;
    put_u64(out, c.value);
    put_b32(out, c.token_id);
    put_b32(out, c.value_blind);
    put_b32(out, c.token_blind);
    put_b32(out, c.signature_public);
    assert(out@ =~= start + clear_input_enc(c));
}

fn put_input(out: &mut Vec<u8>, i: Input)
    ensures
        final(out)@ == old(out)@ + input_enc(i),
{
    let ghost start = out@;
    put_b32(out, i.value_commit);
    put_b32(out, i.token_commit);
    put_b32(out, i.nullifier);
    put_b32(out, i.merkle_root);
    put_b32(out, i.spend_hook);
    put_b32(out, i.user_data_enc);
    put_b32(out, i.signature_public);
    assert(out@ =~= start + input_enc(i));
}

fn put_output(out: &mut Vec<u8>, o: &Output)
    ensures
        final(out)@ == old(out)@ + output_enc(o@),
{
    let ghost start = out@;
    put_b32(out, o.value_commit);
    put_b32(out, o.token_commit);
    put_b32(out, o.coin);
    put_varint(out, o.ciphertext.len() as u64);
    extend(out, &o.ciphertext);
    put_b32(out, o.ephem_public);
    assert(out@ =~= start + output_enc(o@));
}

fn put_clear_inputs(out: &mut Vec<u8>, s: &Vec<ClearInput>)
    ensures
        final(out)@ == old(out)@ + list_enc(s@.len(), clear_input_parts(s@)),
{
    let ghost start = out@;
    put_varint(out, s.len() as u64);
    let mut i: usize = 0;
    while i < s.len()
        invariant
            0 <= i <= s.len(),
            out@ == start + varint_spec(s@.len() as u64) + clear_input_parts(s@.take(i as int)).flatten(),
        decreases s.len() - i,
    {
        put_clear_input(out, s[i]);
        proof {
            assert(clear_input_parts(s@.take(i + 1)) =~= clear_input_parts(s@.take(i as int)).push(
                clear_input_enc(s@[i as int]),
            ));
            clear_input_parts(s@.take(i as int)).lemma_flatten_push(clear_input_enc(s@[i as int]));
        }
        i += 1;
        assert(out@ =~= start + varint_spec(s@.len() as u64) + clear_input_parts(s@.take(i as int)).flatten());
    }
    assert(s@.take(i as int) =~= s@);
    assert(out@ =~= start + list_enc(s@.len(), clear_input_parts(s@)));
}

fn put_inputs(out: &mut Vec<u8>, s: &Vec<Input>)
    ensures
        final(out)@ == old(out)@ + list_enc(s@.len(), input_parts(s@)),
{
    let ghost start = out@;
    put_varint(out, s.len() as u64);
    let mut i: usize = 0;
    while i < s.len()
        invariant
            0 <= i <= s.len(),
            out@ == start + varint_spec(s@.len() as u64) + input_parts(s@.take(i as int)).flatten(),
        decreases s.len() - i,
    {
        put_input(out, s[i]);
        proof {
            assert(input_parts(s@.take(i + 1)) =~= input_parts(s@.take(i as int)).push(
                input_enc(s@[i as int]),
            ));
            input_parts(s@.take(i as int)).lemma_flatten_push(input_enc(s@[i as int]));
        }
        i += 1;
        assert(out@ =~= start + varint_spec(s@.len() as u64) + input_parts(s@.take(i as int)).flatten());
    }
    assert(s@.take(i as int) =~= s@);
    assert(out@ =~= start + list_enc(s@.len(), input_parts(s@)));
}

fn put_outputs(out: &mut Vec<u8>, s: &Vec<Output>)
    ensures
        final(out)@ == old(out)@ + list_enc(s@.len(), output_parts(outputs_view(s@))),
{
    let ghost start = out@;
    let ghost v = outputs_view(s@);
    put_varint(out, s.len() as u64);
    let mut i: usize = 0;
    while i < s.len()
        invariant
            0 <= i <= s.len(),
            v == outputs_view(s@),
            out@ == start + varint_spec(s@.len() as u64) + output_parts(v.take(i as int)).flatten(),
        decreases s.len() - i,
    {
        put_output(out, &s[i]);
        proof {
            assert(output_parts(v.take(i + 1)) =~= output_parts(v.take(i as int)).push(
                output_enc(v[i as int]),
            ));
            output_parts(v.take(i as int)).lemma_flatten_push(output_enc(v[i as int]));
        }
        i += 1;
        assert(out@ =~= start + varint_spec(s@.len() as u64) + output_parts(v.take(i as int)).flatten());
    }
    assert(v.take(i as int) =~= v);
    assert(out@ =~= start + list_enc(s@.len(), output_parts(v)));
}

/// Encodes a transfer's payload.
pub fn encode_params(p: &TransferParams) -> (r: Vec<u8>)
    ensures
        r@ == params_enc(p@),
{
    let mut out: Vec<u8> = Vec::new();
    put_clear_inputs(&mut out, &p.clear_inputs);
    put_inputs(&mut out, &p.inputs);
    put_outputs(&mut out, &p.outputs);
    assert(out@ =~= params_enc(p@));
    out
}

pub(crate) proof fn lemma_fits_split(b: Seq<u8>, pos: int, a: Seq<u8>, c: Seq<u8>)
    requires
        fits(b, pos, a + c),
    ensures
        fits(b, pos, a),
        fits(b, pos + a.len(), c),
{
    let whole = b.subrange(pos, pos + a.len() + c.len());
    assert(whole == a + c);
    assert(b.subrange(pos, pos + a.len()) =~= whole.subrange(0, a.len() as int));
    assert(whole.subrange(0, a.len() as int) =~= a);
    assert(b.subrange(pos + a.len(), pos + a.len() + c.len()) =~= whole.subrange(
        a.len() as int,
        (a.len() + c.len()) as int,
    ));
    assert(whole.subrange(a.len() as int, (a.len() + c.len()) as int) =~= c);
}

pub(crate) proof fn lemma_fits_join(b: Seq<u8>, pos: int, a: Seq<u8>, c: Seq<u8>)
    requires
        fits(b, pos, a),
        fits(b, pos + a.len(), c),
    ensures
        fits(b, pos, a + c),
{
    assert(b.subrange(pos, pos + a.len() + c.len()) =~= b.subrange(pos, pos + a.len()) + b.subrange(
        pos + a.len(),
        pos + a.len() + c.len(),
    ));
}

pub(crate) proof fn lemma_flatten_len_ge(parts: Seq<Seq<u8>>)
    requires
        forall|j: int| 0 <= j < parts.len() ==> (#[trigger] parts[j]).len() >= 1,
    ensures
        parts.flatten().len() >= parts.len(),
    decreases parts.len(),
{
    if parts.len() > 0 {
        let rest = parts.drop_first();
        assert forall|j: int| 0 <= j < rest.len() implies (#[trigger] rest[j]).len() >= 1 by {
            assert(rest[j] == parts[j + 1]);
        }
        lemma_flatten_len_ge(rest);
        assert(parts[0].len() >= 1);
    }
}

/// Where the items of `parts` stand in `b` from `pos` on, item `i` stands
/// after the first `i`.
pub(crate) proof fn lemma_item_fits(b: Seq<u8>, pos: int, parts: Seq<Seq<u8>>, i: int)
    requires
        fits(b, pos, parts.flatten()),
        0 <= i < parts.len(),
    ensures
        fits(b, pos + parts.take(i).flatten().len(), parts[i]),
        parts.take(i + 1).flatten() == parts.take(i).flatten() + parts[i],
{
    assert(parts =~= parts.take(i) + parts.skip(i));
    lemma_flatten_concat(parts.take(i), parts.skip(i));
    assert(parts.skip(i) =~= seq![parts[i]] + parts.skip(i + 1));
    lemma_flatten_concat(seq![parts[i]], parts.skip(i + 1));
    seq![parts[i]].lemma_flatten_one_element();
    lemma_fits_split(b, pos, parts.take(i).flatten(), parts.skip(i).flatten());
    lemma_fits_split(b, pos + parts.take(i).flatten().len(), parts[i], parts.skip(i + 1).flatten());
    assert(parts.take(i + 1) =~= parts.take(i).push(parts[i]));
    parts.take(i).lemma_flatten_push(parts[i]);
}

pub(crate) fn read_b32(b: &Vec<u8>, pos: usize) -> (r: Option<Bytes32>)
    requires
        pos <= b@.len(),
    ensures
        r is Some <==> pos + 32 <= b@.len(),
        r is Some ==> fits(b@, pos as int, b32_enc(r->Some_0)),
        forall|w: Bytes32| fits(b@, pos as int, #[trigger] b32_enc(w)) ==> r == Some(w),
{
    let _ = b.len();
    let l0 = match read_u64(b, pos) {
        Some(n) => n,
        None => return None,
    };
    let l1 = match read_u64(b, pos + 8) {
        Some(n) => n,
        None => return None,
    };
    let l2 = match read_u64(b, pos + 16) {
        Some(n) => n,
        None => return None,
    };
    let l3 = match read_u64(b, pos + 24) {
        Some(n) => n,
        None => return None,
    };
    let w = Bytes32 { l0, l1, l2, l3 };
    proof {
        let p = pos as int;
        assert(b@.subrange(p, p + 32) =~= b@.subrange(p, p + 8) + b@.subrange(p + 8, p + 16)
            + b@.subrange(p + 16, p + 24) + b@.subrange(p + 24, p + 32));
        assert forall|w2: Bytes32| fits(b@, p, #[trigger] b32_enc(w2)) implies Some(w) == Some(w2) by {
            let e = b32_enc(w2);
            assert(b@.subrange(p, p + 8) =~= e.subrange(0, 8));
            assert(e.subrange(0, 8) =~= le64(w2.l0));
            assert(b@.subrange(p + 8, p + 16) =~= e.subrange(8, 16));
            assert(e.subrange(8, 16) =~= le64(w2.l1));
            assert(b@.subrange(p + 16, p + 24) =~= e.subrange(16, 24));
            assert(e.subrange(16, 24) =~= le64(w2.l2));
            assert(b@.subrange(p + 24, p + 32) =~= e.subrange(24, 32));
            assert(e.subrange(24, 32) =~= le64(w2.l3));
        }
    }
    Some(w)
}

pub(crate) proof fn lemma_fits_cat(b: Seq<u8>, pos: int, a: Seq<u8>, c: Seq<u8>)
    ensures
        fits(b, pos, a + c) <==> fits(b, pos, a) && fits(b, pos + a.len(), c),
{
    if fits(b, pos, a + c) {
        lemma_fits_split(b, pos, a, c);
    }
    if fits(b, pos, a) && fits(b, pos + a.len(), c) {
        lemma_fits_join(b, pos, a, c);
    }
}

proof fn lemma_clear_input_layout(b: Seq<u8>, pos: int, x: ClearInput)
    ensures
        fits(b, pos, clear_input_enc(x)) <==> {
            &&& fits(b, pos, le64(x.value))
            &&& fits(b, pos + 8, b32_enc(x.token_id))
            &&& fits(b, pos + 40, b32_enc(x.value_blind))
            &&& fits(b, pos + 72, b32_enc(x.token_blind))
            &&& fits(b, pos + 104, b32_enc(x.signature_public))
        },
{
    let e1 = le64(x.value);
    let e2 = e1 + b32_enc(x.token_id);
    let e3 = e2 + b32_enc(x.value_blind);
    let e4 = e3 + b32_enc(x.token_blind);
    lemma_fits_cat(b, pos, e4, b32_enc(x.signature_public));
    lemma_fits_cat(b, pos, e3, b32_enc(x.token_blind));
    lemma_fits_cat(b, pos, e2, b32_enc(x.value_blind));
    lemma_fits_cat(b, pos, e1, b32_enc(x.token_id));
}

proof fn lemma_input_layout(b: Seq<u8>, pos: int, x: Input)
    ensures
        fits(b, pos, input_enc(x)) <==> {
            &&& fits(b, pos, b32_enc(x.value_commit))
            &&& fits(b, pos + 32, b32_enc(x.token_commit))
            &&& fits(b, pos + 64, b32_enc(x.nullifier))
            &&& fits(b, pos + 96, b32_enc(x.merkle_root))
            &&& fits(b, pos + 128, b32_enc(x.spend_hook))
            &&& fits(b, pos + 160, b32_enc(x.user_data_enc))
            &&& fits(b, pos + 192, b32_enc(x.signature_public))
        },
{
    let e1 = b32_enc(x.value_commit);
    let e2 = e1 + b32_enc(x.token_commit);
    let e3 = e2 + b32_enc(x.nullifier);
    let e4 = e3 + b32_enc(x.merkle_root);
    let e5 = e4 + b32_enc(x.spend_hook);
    let e6 = e5 + b32_enc(x.user_data_enc);
    lemma_fits_cat(b, pos, e6, b32_enc(x.signature_public));
    lemma_fits_cat(b, pos, e5, b32_enc(x.user_data_enc));
    lemma_fits_cat(b, pos, e4, b32_enc(x.spend_hook));
    lemma_fits_cat(b, pos, e3, b32_enc(x.merkle_root));
    lemma_fits_cat(b, pos, e2, b32_enc(x.nullifier));
    lemma_fits_cat(b, pos, e1, b32_enc(x.token_commit));
}

proof fn lemma_output_layout(b: Seq<u8>, pos: int, x: OutputView)
    ensures
        fits(b, pos, output_enc(x)) <==> {
            let k = varint_spec(x.ciphertext.len() as u64).len();
            let n = x.ciphertext.len();
            &&& fits(b, pos, b32_enc(x.value_commit))
            &&& fits(b, pos + 32, b32_enc(x.token_commit))
            &&& fits(b, pos + 64, b32_enc(x.coin))
            &&& fits(b, pos + 96, varint_spec(x.ciphertext.len() as u64))
            &&& fits(b, pos + 96 + k, x.ciphertext)
            &&& fits(b, pos + 96 + k + n, b32_enc(x.ephem_public))
        },
{
    let v = varint_spec(x.ciphertext.len() as u64);
    let e1 = b32_enc(x.value_commit);
    let e2 = e1 + b32_enc(x.token_commit);
    let e3 = e2 + b32_enc(x.coin);
    let e4 = e3 + bytes_enc(x.ciphertext);
    lemma_fits_cat(b, pos, e4, b32_enc(x.ephem_public));
    lemma_fits_cat(b, pos, e3, bytes_enc(x.ciphertext));
    lemma_fits_cat(b, pos + 96, v, x.ciphertext);
    lemma_fits_cat(b, pos, e2, b32_enc(x.coin));
    lemma_fits_cat(b, pos, e1, b32_enc(x.token_commit));
}

fn read_clear_input(b: &Vec<u8>, pos: usize) -> (r: Option<(ClearInput, usize)>)
    requires
        pos <= b@.len(),
    ensures
        r is Some ==> fits(b@, pos as int, clear_input_enc(r->Some_0.0)) && r->Some_0.1 == pos
            + clear_input_enc(r->Some_0.0).len(),
        forall|x: ClearInput|
            fits(b@, pos as int, #[trigger] clear_input_enc(x)) ==> r is Some && r->Some_0.0 == x,
{
    if b.len() - pos < 136 {
        return None;
    }
    let value = match read_u64(b, pos) {
        Some(n) => n,
        None => return None,
    };
    let token_id = match read_b32(b, pos + 8) {
        Some(w) => w,
        None => return None,
    };
    let value_blind = match read_b32(b, pos + 40) {
        Some(w) => w,
        None => return None,
    };
    let token_blind = match read_b32(b, pos + 72) {
        Some(w) => w,
        None => return None,
    };
    let signature_public = match read_b32(b, pos + 104) {
        Some(w) => w,
        None => return None,
    };
    let x = ClearInput { value, token_id, value_blind, token_blind, signature_public };
    proof {
        lemma_clear_input_layout(b@, pos as int, x);
        assert(fits(b@, pos as int, le64(value)));
        assert forall|x2: ClearInput| fits(b@, pos as int, #[trigger] clear_input_enc(x2)) implies x2 == x by {
            lemma_clear_input_layout(b@, pos as int, x2);
            assert(b@.subrange(pos as int, pos + 8) == le64(x2.value));
        }
    }
    Some((x, pos + 136))
}

fn read_input(b: &Vec<u8>, pos: usize) -> (r: Option<(Input, usize)>)
    requires
        pos <= b@.len(),
    ensures
        r is Some ==> fits(b@, pos as int, input_enc(r->Some_0.0)) && r->Some_0.1 == pos + input_enc(
            r->Some_0.0,
        ).len(),
        forall|x: Input| fits(b@, pos as int, #[trigger] input_enc(x)) ==> r is Some && r->Some_0.0 == x,
{
    if b.len() - pos < 224 {
        return None;
    }
    let value_commit = match read_b32(b, pos) {
        Some(w) => w,
        None => return None,
    };
    let token_commit = match read_b32(b, pos + 32) {
        Some(w) => w,
        None => return None,
    };
    let nullifier = match read_b32(b, pos + 64) {
        Some(w) => w,
        None => return None,
    };
    let merkle_root = match read_b32(b, pos + 96) {
        Some(w) => w,
        None => return None,
    };
    let spend_hook = match read_b32(b, pos + 128) {
        Some(w) => w,
        None => return None,
    };
    let user_data_enc = match read_b32(b, pos + 160) {
        Some(w) => w,
        None => return None,
    };
    let signature_public = match read_b32(b, pos + 192) {
        Some(w) => w,
        None => return None,
    };
    let x = Input {
        value_commit,
        token_commit,
        nullifier,
        merkle_root,
        spend_hook,
        user_data_enc,
        signature_public,
    };
    proof {
        lemma_input_layout(b@, pos as int, x);
        assert forall|x2: Input| fits(b@, pos as int, #[trigger] input_enc(x2)) implies x2 == x by {
            lemma_input_layout(b@, pos as int, x2);
        }
    }
    Some((x, pos + 224))
}

pub(crate) fn read_bytes(b: &Vec<u8>, pos: usize, n: usize) -> (r: Vec<u8>)
    requires
        pos + n <= b@.len(),
    ensures
        r@ == b@.subrange(pos as int, pos + n),
{
    let _ = b.len();
    let mut r: Vec<u8> = Vec::new();
    let mut i: usize = 0;
    while i < n
        invariant
            pos + n <= b@.len(),
            b@.len() <= usize::MAX,
            0 <= i <= n,
            r@ == b@.subrange(pos as int, pos + i),
        decreases n - i,
    {
        r.push(b[pos + i]);
        i += 1;
        assert(r@ =~= b@.subrange(pos as int, pos + i));
    }
    r
}

fn read_output(b: &Vec<u8>, pos: usize) -> (r: Option<(Output, usize)>)
    requires
        pos <= b@.len(),
    ensures
        r is Some ==> fits(b@, pos as int, output_enc(r->Some_0.0@)) && r->Some_0.1 == pos
            + output_enc(r->Some_0.0@).len(),
        forall|x: OutputView| fits(b@, pos as int, #[trigger] output_enc(x)) ==> r is Some && r->Some_0.0@ == x,
{
    if b.len() - pos < 96 {
        return None;
    }
    let value_commit = match read_b32(b, pos) {
        Some(w) => w,
        None => return None,
    };
    let token_commit = match read_b32(b, pos + 32) {
        Some(w) => w,
        None => return None,
    };
    let coin = match read_b32(b, pos + 64) {
        Some(w) => w,
        None => return None,
    };
    proof {
        assert forall|x2: OutputView| fits(b@, pos as int, #[trigger] output_enc(x2)) implies {
            let k2 = varint_spec(x2.ciphertext.len() as u64).len();
            let n2 = x2.ciphertext.len();
            &&& fits(b@, pos as int, b32_enc(x2.value_commit))
            &&& fits(b@, pos + 32, b32_enc(x2.token_commit))
            &&& fits(b@, pos + 64, b32_enc(x2.coin))
            &&& fits(b@, pos + 96, varint_spec(x2.ciphertext.len() as u64))
            &&& fits(b@, pos + 96 + k2, x2.ciphertext)
            &&& fits(b@, pos + 96 + k2 + n2, b32_enc(x2.ephem_public))
            &&& n2 == x2.ciphertext.len() as u64
        } by {
            lemma_output_layout(b@, pos as int, x2);
        }
    }
    let (n, k) = match read_varint(b, pos + 96) {
        Some(v) => v,
        None => return None,
    };
    let body = pos + 96 + k;
    if n > (b.len() - body) as u64 {
        return None;
    }
    let ciphertext = read_bytes(b, body, n as usize);
    let tail = body + n as usize;
    let ephem_public = match read_b32(b, tail) {
        Some(w) => w,
        None => return None,
    };
    let x = Output { value_commit, token_commit, coin, ciphertext, ephem_public };
    proof {
        assert(k == varint_spec(n).len());
        assert(fits(b@, body as int, x.ciphertext@));
        lemma_output_layout(b@, pos as int, x@);
    }
    Some((x, tail + 32))
}

fn read_clear_inputs(b: &Vec<u8>, pos: usize) -> (r: Option<(Vec<ClearInput>, usize)>)
    requires
        pos <= b@.len(),
    ensures
        r is Some ==> fits(b@, pos as int, clear_inputs_enc(r->Some_0.0@)) && r->Some_0.1 == pos
            + clear_inputs_enc(r->Some_0.0@).len(),
        forall|t: Seq<ClearInput>| fits(b@, pos as int, #[trigger] clear_inputs_enc(t)) ==> r is Some && r->Some_0.0@ == t,
{
    let _ = b.len();
    let (n, k) = match read_varint(b, pos) {
        Some(v) => v,
        None => {
            proof {
                assert forall|t: Seq<ClearInput>| fits(b@, pos as int, #[trigger] clear_inputs_enc(t)) implies false by {
                    lemma_fits_split(b@, pos as int, varint_spec(t.len() as u64), clear_input_parts(t).flatten());
                }
            }
            return None;
        },
    };
    let start = pos + k;
    proof {
        assert forall|t: Seq<ClearInput>| fits(b@, pos as int, #[trigger] clear_inputs_enc(t)) implies n == t.len()
            && fits(b@, start as int, clear_input_parts(t).flatten()) by {
            lemma_fits_split(b@, pos as int, varint_spec(t.len() as u64), clear_input_parts(t).flatten());
            assert forall|j: int| 0 <= j < clear_input_parts(t).len() implies (#[trigger] clear_input_parts(t)[j]).len() >= 1 by {
                assert(clear_input_parts(t)[j] == clear_input_enc(t[j]));
            }
            lemma_flatten_len_ge(clear_input_parts(t));
        }
    }
    let mut cur = start;
    let mut items: Vec<ClearInput> = Vec::new();
    let mut i: u64 = 0;
    proof {
        assert(b@.subrange(start as int, start as int) =~= Seq::<u8>::empty());
    }
    while i < n
        invariant
            b@.len() <= usize::MAX,
            start == pos + k,
            start <= b@.len(),
            b@.subrange(pos as int, start as int) == varint_spec(n),
            items@.len() == i,
            i <= n,
            fits(b@, start as int, clear_input_parts(items@).flatten()),
            cur == start + clear_input_parts(items@).flatten().len(),
            forall|t: Seq<ClearInput>|
                fits(b@, pos as int, #[trigger] clear_inputs_enc(t)) ==> n == t.len() && fits(
                    b@,
                    start as int,
                    clear_input_parts(t).flatten(),
                ) && items@ == t.take(i as int),
        decreases n - i,
    {
        proof {
            assert forall|t: Seq<ClearInput>| fits(b@, pos as int, #[trigger] clear_inputs_enc(t)) implies fits(
                b@,
                cur as int,
                clear_input_enc(t[i as int]),
            ) by {
                lemma_item_fits(b@, start as int, clear_input_parts(t), i as int);
                assert(clear_input_parts(t).take(i as int) =~= clear_input_parts(items@));
            }
        }
        let (x, next) = match read_clear_input(b, cur) {
            Some(v) => v,
            None => return None,
        };
        proof {
            assert(items@.push(x) =~= items@.push(x));
            assert(clear_input_parts(items@.push(x)) =~= clear_input_parts(items@).push(clear_input_enc(x)));
            clear_input_parts(items@).lemma_flatten_push(clear_input_enc(x));
            lemma_fits_join(b@, start as int, clear_input_parts(items@).flatten(), clear_input_enc(x));
            assert forall|t: Seq<ClearInput>| fits(b@, pos as int, #[trigger] clear_inputs_enc(t)) implies items@.push(x)
                == t.take(i + 1) by {
                assert(t.take(i + 1) =~= t.take(i as int).push(t[i as int]));
            }
        }
        items.push(x);
        cur = next;
        i += 1;
    }
    proof {
        lemma_fits_join(b@, pos as int, varint_spec(n), clear_input_parts(items@).flatten());
        assert forall|t: Seq<ClearInput>| fits(b@, pos as int, #[trigger] clear_inputs_enc(t)) implies items@ == t by {
            assert(t.take(n as int) =~= t);
        }
    }
    Some((items, cur))
}

fn read_inputs(b: &Vec<u8>, pos: usize) -> (r: Option<(Vec<Input>, usize)>)
    requires
        pos <= b@.len(),
    ensures
        r is Some ==> fits(b@, pos as int, inputs_enc(r->Some_0.0@)) && r->Some_0.1 == pos
            + inputs_enc(r->Some_0.0@).len(),
        forall|t: Seq<Input>| fits(b@, pos as int, #[trigger] inputs_enc(t)) ==> r is Some && r->Some_0.0@ == t,
{
    let _ = b.len();
    let (n, k) = match read_varint(b, pos) {
        Some(v) => v,
        None => {
            proof {
                assert forall|t: Seq<Input>| fits(b@, pos as int, #[trigger] inputs_enc(t)) implies false by {
                    lemma_fits_split(b@, pos as int, varint_spec(t.len() as u64), input_parts(t).flatten());
                }
            }
            return None;
        },
    };
    let start = pos + k;
    proof {
        assert forall|t: Seq<Input>| fits(b@, pos as int, #[trigger] inputs_enc(t)) implies n == t.len()
            && fits(b@, start as int, input_parts(t).flatten()) by {
            lemma_fits_split(b@, pos as int, varint_spec(t.len() as u64), input_parts(t).flatten());
            assert forall|j: int| 0 <= j < input_parts(t).len() implies (#[trigger] input_parts(t)[j]).len() >= 1 by {
                assert(input_parts(t)[j] == input_enc(t[j]));
            }
            lemma_flatten_len_ge(input_parts(t));
        }
    }
    let mut cur = start;
    let mut items: Vec<Input> = Vec::new();
    let mut i: u64 = 0;
    proof {
        assert(b@.subrange(start as int, start as int) =~= Seq::<u8>::empty());
    }
    while i < n
        invariant
            b@.len() <= usize::MAX,
            start == pos + k,
            start <= b@.len(),
            b@.subrange(pos as int, start as int) == varint_spec(n),
            items@.len() == i,
            i <= n,
            fits(b@, start as int, input_parts(items@).flatten()),
            cur == start + input_parts(items@).flatten().len(),
            forall|t: Seq<Input>|
                fits(b@, pos as int, #[trigger] inputs_enc(t)) ==> n == t.len() && fits(
                    b@,
                    start as int,
                    input_parts(t).flatten(),
                ) && items@ == t.take(i as int),
        decreases n - i,
    {
        proof {
            assert forall|t: Seq<Input>| fits(b@, pos as int, #[trigger] inputs_enc(t)) implies fits(
                b@,
                cur as int,
                input_enc(t[i as int]),
            ) by {
                lemma_item_fits(b@, start as int, input_parts(t), i as int);
                assert(input_parts(t).take(i as int) =~= input_parts(items@));
            }
        }
        let (x, next) = match read_input(b, cur) {
            Some(v) => v,
            None => return None,
        };
        proof {
            assert(items@.push(x) =~= items@.push(x));
            assert(input_parts(items@.push(x)) =~= input_parts(items@).push(input_enc(x)));
            input_parts(items@).lemma_flatten_push(input_enc(x));
            lemma_fits_join(b@, start as int, input_parts(items@).flatten(), input_enc(x));
            assert forall|t: Seq<Input>| fits(b@, pos as int, #[trigger] inputs_enc(t)) implies items@.push(x)
                == t.take(i + 1) by {
                assert(t.take(i + 1) =~= t.take(i as int).push(t[i as int]));
            }
        }
        items.push(x);
        cur = next;
        i += 1;
    }
    proof {
        lemma_fits_join(b@, pos as int, varint_spec(n), input_parts(items@).flatten());
        assert forall|t: Seq<Input>| fits(b@, pos as int, #[trigger] inputs_enc(t)) implies items@ == t by {
            assert(t.take(n as int) =~= t);
        }
    }
    Some((items, cur))
}

fn read_outputs(b: &Vec<u8>, pos: usize) -> (r: Option<(Vec<Output>, usize)>)
    requires
        pos <= b@.len(),
    ensures
        r is Some ==> fits(b@, pos as int, outputs_enc(outputs_view(r->Some_0.0@))) && r->Some_0.1 == pos
            + outputs_enc(outputs_view(r->Some_0.0@)).len(),
        forall|t: Seq<OutputView>| fits(b@, pos as int, #[trigger] outputs_enc(t)) ==> r is Some && outputs_view(r->Some_0.0@) == t,
{
    let _ = b.len();
    let (n, k) = match read_varint(b, pos) {
        Some(v) => v,
        None => {
            proof {
                assert forall|t: Seq<OutputView>| fits(b@, pos as int, #[trigger] outputs_enc(t)) implies false by {
                    lemma_fits_split(b@, pos as int, varint_spec(t.len() as u64), output_parts(t).flatten());
                }
            }
            return None;
        },
    };
    let start = pos + k;
    proof {
        assert forall|t: Seq<OutputView>| fits(b@, pos as int, #[trigger] outputs_enc(t)) implies n == t.len()
            && fits(b@, start as int, output_parts(t).flatten()) by {
            lemma_fits_split(b@, pos as int, varint_spec(t.len() as u64), output_parts(t).flatten());
            assert forall|j: int| 0 <= j < output_parts(t).len() implies (#[trigger] output_parts(t)[j]).len() >= 1 by {
                assert(output_parts(t)[j] == output_enc(t[j]));
            }
            lemma_flatten_len_ge(output_parts(t));
        }
    }
    let mut cur = start;
    let mut items: Vec<Output> = Vec::new();
    let mut i: u64 = 0;
    proof {
        assert(b@.subrange(start as int, start as int) =~= Seq::<u8>::empty());
    }
    while i < n
        invariant
            b@.len() <= usize::MAX,
            start == pos + k,
            start <= b@.len(),
            b@.subrange(pos as int, start as int) == varint_spec(n),
            items@.len() == i,
            i <= n,
            fits(b@, start as int, output_parts(outputs_view(items@)).flatten()),
            cur == start + output_parts(outputs_view(items@)).flatten().len(),
            forall|t: Seq<OutputView>|
                fits(b@, pos as int, #[trigger] outputs_enc(t)) ==> n == t.len() && fits(
                    b@,
                    start as int,
                    output_parts(t).flatten(),
                ) && outputs_view(items@) == t.take(i as int),
        decreases n - i,
    {
        proof {
            assert forall|t: Seq<OutputView>| fits(b@, pos as int, #[trigger] outputs_enc(t)) implies fits(
                b@,
                cur as int,
                output_enc(t[i as int]),
            ) by {
                lemma_item_fits(b@, start as int, output_parts(t), i as int);
                assert(output_parts(t).take(i as int) =~= output_parts(outputs_view(items@)));
            }
        }
        let (x, next) = match read_output(b, cur) {
            Some(v) => v,
            None => return None,
        };
        proof {
            assert(outputs_view(items@.push(x)) =~= outputs_view(items@).push(x@));
            assert(output_parts(outputs_view(items@).push(x@)) =~= output_parts(outputs_view(items@)).push(output_enc(x@)));
            output_parts(outputs_view(items@)).lemma_flatten_push(output_enc(x@));
            lemma_fits_join(b@, start as int, output_parts(outputs_view(items@)).flatten(), output_enc(x@));
            assert forall|t: Seq<OutputView>| fits(b@, pos as int, #[trigger] outputs_enc(t)) implies outputs_view(items@).push(x@)
                == t.take(i + 1) by {
                assert(t.take(i + 1) =~= t.take(i as int).push(t[i as int]));
            }
        }
        items.push(x);
        cur = next;
        i += 1;
    }
    proof {
        lemma_fits_join(b@, pos as int, varint_spec(n), output_parts(outputs_view(items@)).flatten());
        assert forall|t: Seq<OutputView>| fits(b@, pos as int, #[trigger] outputs_enc(t)) implies outputs_view(items@) == t by {
            assert(t.take(n as int) =~= t);
        }
    }
    Some((items, cur))
}

/// Reads a transfer's payload that starts at `pos`, and where it ends.
pub(crate) fn read_params(b: &Vec<u8>, pos: usize) -> (r: Option<(TransferParams, usize)>)
    requires
        pos <= b@.len(),
    ensures
        r is Some ==> fits(b@, pos as int, params_enc(r->Some_0.0@)) && r->Some_0.1 == pos + params_enc(
            r->Some_0.0@,
        ).len(),
        forall|p: ParamsView| fits(b@, pos as int, #[trigger] params_enc(p)) ==> r is Some && r->Some_0.0@ == p,
{
    proof {
        assert forall|q: ParamsView| fits(b@, pos as int, #[trigger] params_enc(q)) implies {
            let a = clear_inputs_enc(q.clear_inputs);
            let c = inputs_enc(q.inputs);
            let d = outputs_enc(q.outputs);
            &&& fits(b@, pos as int, a)
            &&& fits(b@, pos + a.len(), c)
            &&& fits(b@, pos + a.len() + c.len(), d)
        } by {
            let a = clear_inputs_enc(q.clear_inputs);
            let c = inputs_enc(q.inputs);
            let d = outputs_enc(q.outputs);
            lemma_fits_cat(b@, pos as int, a + c, d);
            lemma_fits_cat(b@, pos as int, a, c);
        }
    }
    let (clear_inputs, c1) = match read_clear_inputs(b, pos) {
        Some(v) => v,
        None => return None,
    };
    let (inputs, c2) = match read_inputs(b, c1) {
        Some(v) => v,
        None => return None,
    };
    let (outputs, c3) = match read_outputs(b, c2) {
        Some(v) => v,
        None => return None,
    };
    let p = TransferParams { clear_inputs, inputs, outputs };
    proof {
        let a = clear_inputs_enc(p@.clear_inputs);
        let c = inputs_enc(p@.inputs);
        let d = outputs_enc(p@.outputs);
        lemma_fits_join(b@, pos as int, a, c);
        lemma_fits_join(b@, pos as int, a + c, d);
    }
    Some((p, c3))
}

/// Decodes a transfer's payload that fills `b` from `pos` to its end.
pub fn decode_params(b: &Vec<u8>, pos: usize) -> (r: Option<TransferParams>)
    requires
        pos <= b@.len(),
    ensures
        r is Some ==> params_enc(r->Some_0@) == b@.subrange(pos as int, b@.len() as int),
        forall|p: ParamsView|
            #[trigger] params_enc(p) == b@.subrange(pos as int, b@.len() as int) ==> r is Some && r->Some_0@ == p,
{
    let (p, end) = match read_params(b, pos) {
        Some(v) => v,
        None => return None,
    };
    if end != b.len() {
        return None;
    }
    Some(p)
}

/// The payload of a transfer call: the function selector, then the encoded
/// transfer.
pub fn call_data(selector: u8, p: &TransferParams) -> (r: Vec<u8>)
    ensures
        r@ == seq![selector] + params_enc(p@),
{
    let mut out: Vec<u8> = Vec::new();
    out.push(selector);
    let body = encode_params(p);
    extend(&mut out, &body);
    out
}

} // verus!
