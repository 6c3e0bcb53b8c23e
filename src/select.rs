//! Choosing the coin to burn and the circuits to prove with.
use vstd::prelude::*;
use crate::model::{Bytes32, Coin, PartialSwapData, SwapError, TransferParams, zero_spec};

verus! {

/// A coin may be sent in a swap of `value` of `token` when it holds exactly
/// that and no contract hooks it.
pub open spec fn eligible(c: Coin, value: u64, token: Bytes32) -> bool {
    c.value == value && c.token_id == token && c.spend_hook == zero_spec()
}

/// `i` is the first eligible coin of `coins`.
pub open spec fn first_eligible(coins: Seq<Coin>, value: u64, token: Bytes32, i: int) -> bool {
    0 <= i < coins.len() && eligible(coins[i], value, token)
        && forall|j: int| 0 <= j < i ==> !eligible(#[trigger] coins[j], value, token)
}

pub open spec fn none_eligible(coins: Seq<Coin>, value: u64, token: Bytes32) -> bool {
    forall|j: int| 0 <= j < coins.len() ==> !eligible(#[trigger] coins[j], value, token)
}

/// Picks the first eligible coin; no best-fit search.
pub fn select_coin(coins: &Vec<Coin>, value: u64, token: Bytes32) -> (r: Result<usize, SwapError>)
    ensures
        match r {
            Ok(i) => first_eligible(coins@, value, token, i as int),
            Err(e) => e == SwapError::NoMatchingCoin && none_eligible(coins@, value, token),
        },
{
    let zero = Bytes32::zero();
    let mut i: usize = 0;
    while i < coins.len()
        invariant
            0 <= i <= coins.len(),
            zero == zero_spec(),
            forall|j: int| 0 <= j < i ==> !eligible(#[trigger] coins@[j], value, token),
        decreases coins.len() - i,
    {
        let c = coins[i];
        if c.value == value && c.token_id == token && c.spend_hook == zero {
            return Ok(i);
        }
        i += 1;
    }
    Err(SwapError::NoMatchingCoin)
}

/// A named circuit binary that a contract publishes.
#[derive(Clone, Debug)]
pub struct ZkasBinary {
    pub name: Vec<u8>,
    pub bytecode: Vec<u8>,
}

/// What one half of a swap will burn and mint, and with which circuits.
/// `coin`, `mint` and `burn` index the coin list and the circuit list.
#[derive(Clone, Copy, Debug, PartialEq, Eq, Structural)]
pub struct HalfPlan {
    pub coin: usize,
    pub mint: usize,
    pub burn: usize,
    pub value_send: u64,
    pub token_send: Bytes32,
    pub value_recv: u64,
    pub token_recv: Bytes32,
}

/// `i` is the first circuit of `bins` named `name`.
pub open spec fn first_named(bins: Seq<ZkasBinary>, name: Seq<u8>, i: int) -> bool {
    0 <= i < bins.len() && bins[i].name@ == name
        && forall|j: int| 0 <= j < i ==> (#[trigger] bins[j]).name@ != name
}

pub open spec fn none_named(bins: Seq<ZkasBinary>, name: Seq<u8>) -> bool {
    forall|j: int| 0 <= j < bins.len() ==> (#[trigger] bins[j]).name@ != name
}

/// Byte-wise equality of two byte strings.
pub fn bytes_eq(a: &Vec<u8>, b: &Vec<u8>) -> (r: bool)
    ensures
        r == (a@ == b@),
{
    if a.len() != b.len() {
        return false;
    }
    let mut i: usize = 0;
    while i < a.len()
        invariant
            a.len() == b.len(),
            0 <= i <= a.len(),
            forall|j: int| 0 <= j < i ==> a@[j] == b@[j],
        decreases a.len() - i,
    {
        if a[i] != b[i] {
            return false;
        }
        i += 1;
    }
    assert(a@ =~= b@);
    true
}

/// Finds the first circuit of the given name.
pub fn find_circuit(bins: &Vec<ZkasBinary>, name: &Vec<u8>) -> (r: Result<usize, SwapError>)
    ensures
        match r {
            Ok(i) => first_named(bins@, name@, i as int),
            Err(e) => e == SwapError::CircuitNotFound && none_named(bins@, name@),
        },
{
    let mut i: usize = 0;
    while i < bins.len()
        invariant
            0 <= i <= bins.len(),
            forall|j: int| 0 <= j < i ==> (#[trigger] bins@[j]).name@ != name@,
        decreases bins.len() - i,
    {
        if bytes_eq(&bins[i].name, name) {
            return Ok(i);
        }
        i += 1;
    }
    Err(SwapError::CircuitNotFound)
}

/// The outcome that planning a half owes: the first eligible coin, then the
/// first mint and burn circuits, each failure in that order.
pub open spec fn plan_spec(
    coins: Seq<Coin>,
    bins: Seq<ZkasBinary>,
    mint_name: Seq<u8>,
    burn_name: Seq<u8>,
    value_send: u64,
    token_send: Bytes32,
    value_recv: u64,
    token_recv: Bytes32,
    r: Result<HalfPlan, SwapError>,
) -> bool {
    if none_eligible(coins, value_send, token_send) {
        r == Err::<HalfPlan, SwapError>(SwapError::NoMatchingCoin)
    } else if none_named(bins, mint_name) || none_named(bins, burn_name) {
        r == Err::<HalfPlan, SwapError>(SwapError::CircuitNotFound)
    } else {
        &&& r is Ok
        &&& first_eligible(coins, value_send, token_send, r->Ok_0.coin as int)
        &&& first_named(bins, mint_name, r->Ok_0.mint as int)
        &&& first_named(bins, burn_name, r->Ok_0.burn as int)
        &&& r->Ok_0.value_send == value_send
        &&& r->Ok_0.token_send == token_send
        &&& r->Ok_0.value_recv == value_recv
        &&& r->Ok_0.token_recv == token_recv
    }
}

/// Plans the initiator's half: burn a coin of (`value_send`, `token_send`)
/// and mint (`value_recv`, `token_recv`).
pub fn plan_half(
    coins: &Vec<Coin>,
    bins: &Vec<ZkasBinary>,
    mint_name: &Vec<u8>,
    burn_name: &Vec<u8>,
    value_send: u64,
    token_send: Bytes32,
    value_recv: u64,
    token_recv: Bytes32,
) -> (r: Result<HalfPlan, SwapError>)
    ensures
        plan_spec(coins@, bins@, mint_name@, burn_name@, value_send, token_send, value_recv, token_recv, r),
{
    let coin = match select_coin(coins, value_send, token_send) {
        Ok(i) => i,
        Err(e) => return Err(e),
    };
    let mint = match find_circuit(bins, mint_name) {
        Ok(i) => i,
        Err(e) => return Err(e),
    };
    let burn = match find_circuit(bins, burn_name) {
        Ok(i) => i,
        Err(e) => return Err(e),
    };
    Ok(HalfPlan { coin, mint, burn, value_send, token_send, value_recv, token_recv })
}

/// Plans the counterparty's half for a received half-swap: burn what the
/// initiator asked to receive, mint what the initiator sends.
pub fn plan_join(
    coins: &Vec<Coin>,
    bins: &Vec<ZkasBinary>,
    mint_name: &Vec<u8>,
    burn_name: &Vec<u8>,
    partial: &PartialSwapData,
) -> (r: Result<HalfPlan, SwapError>)
    ensures
        plan_spec(
            coins@,
            bins@,
            mint_name@,
            burn_name@,
            partial.value_pair.1,
            partial.token_pair.1,
            partial.value_pair.0,
            partial.token_pair.0,
            r,
        ),
{
    plan_half(
        coins,
        bins,
        mint_name,
        burn_name,
        partial.value_pair.1,
        partial.token_pair.1,
        partial.value_pair.0,
        partial.token_pair.0,
    )
}

/// Packages the initiator's built half as the half-swap sent to the
/// counterparty: the value and token pairs are (sent, received) as planned,
/// and the blinds are the ones sampled for this half.
pub fn half_from_plan(
    plan: &HalfPlan,
    params: TransferParams,
    proofs: Vec<Vec<u8>>,
    value_blinds: Vec<Bytes32>,
    token_blinds: Vec<Bytes32>,
) -> (r: PartialSwapData)
    ensures
        r.params == params,
        r.proofs == proofs,
        r.value_pair == (plan.value_send, plan.value_recv),
        r.token_pair == (plan.token_send, plan.token_recv),
        r.value_blinds == value_blinds,
        r.token_blinds == token_blinds,
{
    PartialSwapData {
        params,
        proofs,
        value_pair: (plan.value_send, plan.value_recv),
        token_pair: (plan.token_send, plan.token_recv),
        value_blinds,
        token_blinds,
    }
}

} // verus!
