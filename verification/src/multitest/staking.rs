//! The staking and distribution modules: delegations to validators, their rewards and
//! slashing, and the queue of unbondings.
//!
//! Decimals are held as atomic units (see `decimal`), times as nanoseconds since the epoch.
use crate::multitest::coin::{coin_view, coins_view, Coin};
use crate::multitest::decimal::{
    decimal_div, decimal_from_ratio, decimal_mul, uint_mul_decimal, DECIMAL_FRACTIONAL,
};
use crate::multitest::table::{Table, TableKey};
use crate::multitest::terra::{attr, coin_text, coin_to_string};
use crate::multitest::wasm::{attrs_view, decimal, events_view, push_decimal, Attribute, Event};
use vstd::prelude::*;

verus! {

/// Seconds in a year of 365 days.
pub const SECONDS_PER_YEAR: u128 = 31_536_000;

/// Nanoseconds in a second.
pub const NANOS_PER_SECOND: u64 = 1_000_000_000;

// Contains some general staking parameters
#[derive(Clone, Debug, PartialEq, Eq)]
pub struct StakingInfo {
    /// The denominator of the staking token
    pub bonded_denom: String,
    /// Time between unbonding and receiving tokens in seconds
    pub unbonding_time: u64,
    /// Interest rate per year (60 * 60 * 24 * 365 seconds)
    pub apr: u128,
}

impl StakingInfo {
    /// The parameters used while none are set: "TOKEN", 60 seconds, 10%.
    pub fn default_info() -> (r: Self)
        ensures
            r.bonded_denom@ == "TOKEN"@,
            r.unbonding_time == 60,
            r.apr == 100_000_000_000_000_000,
    {
        StakingInfo {
            bonded_denom: "TOKEN".to_owned(),
            unbonding_time: 60,
            apr: 100_000_000_000_000_000,
        }
    }
}

/// The number of stake and rewards of this validator the staker has. These can be fractional in case of slashing.
#[derive(Clone, Copy, Debug, PartialEq, Eq, Structural)]
pub struct Shares {
    pub stake: u128,
    pub rewards: u128,
}

/// A validator as the chain knows it.
#[derive(Clone, Debug, PartialEq, Eq)]
pub struct Validator {
    pub address: String,
    pub commission: u128,
    pub max_commission: u128,
    /// The maximum daily increase of the commission
    pub max_change_rate: u128,
}

/// Holds some operational data about a validator
#[derive(Clone, Debug, PartialEq, Eq)]
pub struct ValidatorInfo {
    /// The stakers that have staked with this validator.
    /// We need to track them for updating their rewards.
    pub stakers: Vec<String>,
    /// The whole stake of all stakers
    pub stake: u128,
    /// The block time when this validator's rewards were last update. This is needed for rewards calculation.
    pub last_rewards_calculation: u64,
}

/// The set of addresses in a list.
pub open spec fn address_set(s: Seq<String>) -> Set<Seq<char>> {
    Set::new(|a: Seq<char>| exists|i: int| 0 <= i < s.len() && s[i]@ == a)
}

/// No address occurs twice in the list.
pub open spec fn distinct_addresses(s: Seq<String>) -> bool {
    forall|i: int, j: int| 0 <= i < j < s.len() ==> #[trigger] s[i]@ != #[trigger] s[j]@
}

/// What is known of a validator's operational data: its stakers, stake and last
/// rewards calculation.
pub struct InfoView {
    pub stakers: Set<Seq<char>>,
    pub stake: u128,
    pub last_rewards_calculation: u64,
}

pub open spec fn info_view(vi: ValidatorInfo) -> InfoView {
    InfoView {
        stakers: address_set(vi.stakers@),
        stake: vi.stake,
        last_rewards_calculation: vi.last_rewards_calculation,
    }
}

/// What is known of a validator: its address and rates.
pub struct ValidatorView {
    pub address: Seq<char>,
    pub commission: u128,
    pub max_commission: u128,
    pub max_change_rate: u128,
}

pub open spec fn validator_view(v: Validator) -> ValidatorView {
    ValidatorView {
        address: v.address@,
        commission: v.commission,
        max_commission: v.max_commission,
        max_change_rate: v.max_change_rate,
    }
}

impl ValidatorInfo {
    pub fn new(block_time: u64) -> (r: Self)
        ensures
            r.stakers@.len() == 0,
            r.stake == 0,
            r.last_rewards_calculation == block_time,
    {
        ValidatorInfo { stakers: Vec::new(), stake: 0, last_rewards_calculation: block_time }
    }
}

/// The share of `rewards` that a staker with `stake` gets from a validator with `validator_stake`.
pub open spec fn share_of(rewards: u128, stake: u128, validator_stake: u128) -> int {
    (rewards * stake / (DECIMAL_FRACTIONAL as int)) / (validator_stake as int)
}

/// The share can be computed without overflow or division by zero.
pub open spec fn share_ok(rewards: u128, stake: u128, validator_stake: u128) -> bool {
    &&& validator_stake > 0
    &&& rewards * stake / (DECIMAL_FRACTIONAL as int) <= u128::MAX
}

impl Shares {
    /// Calculates the share of validator rewards that should be given to this staker.
    pub fn share_of_rewards(&self, validator: &ValidatorInfo, rewards: u128) -> (r: u128)
        requires
            share_ok(rewards, self.stake, validator.stake),
        ensures
            r == share_of(rewards, self.stake, validator.stake),
    {
        decimal_mul(rewards, self.stake) / validator.stake
    }
}

/// The whole seconds between `since` and `now` as the timestamps compute them:
/// `now` minus the whole seconds of `since`, in whole seconds.
pub open spec fn elapsed_seconds(now: u64, since: u64) -> int {
    (now - (since as int / 1_000_000_000int) * 1_000_000_000int) / 1_000_000_000int
}

/// The rewards of a validator with `stake` since `since`, after commission: the stake
/// earns `interest_rate` per year, each product rounded down to 18 digits.
pub open spec fn rewards_due(
    now: u64,
    since: u64,
    interest_rate: u128,
    commission: u128,
    stake: u128,
) -> int {
    let f = DECIMAL_FRACTIONAL as int;
    let t = elapsed_seconds(now, since);
    let s = stake * f;
    let a = s * interest_rate / f;
    let b = a * (t * f) / f;
    let reward = b * f / (31_536_000int * f);
    reward - reward * commission / f
}

/// The rewards can be computed: time does not run backwards and no step overflows.
pub open spec fn rewards_ok(
    now: u64,
    since: u64,
    interest_rate: u128,
    commission: u128,
    stake: u128,
) -> bool {
    let f = DECIMAL_FRACTIONAL as int;
    let t = elapsed_seconds(now, since);
    let s = stake * f;
    let a = s * interest_rate / f;
    let b = a * (t * f) / f;
    let reward = b * f / (31_536_000int * f);
    &&& (since as int / 1_000_000_000int) * 1_000_000_000int <= now
    &&& s <= u128::MAX
    &&& a <= u128::MAX
    &&& b <= u128::MAX
    &&& reward * commission / f <= reward
}

/// The rewards of a period, in closed form: over the whole seconds `t` between the
/// timestamps, the stake earns `interest_rate` (a decimal fraction, 10^18 being 100%) per
/// year of 31_536_000 seconds, rounded down; the validator keeps `commission` (a decimal
/// fraction) of that, rounded down, and the rest is due.
pub proof fn lemma_rewards_formula(
    now: u64,
    since: u64,
    interest_rate: u128,
    commission: u128,
    stake: u128,
)
    requires
        since <= now,
    ensures
        ({
            let t = now as int / 1_000_000_000int - since as int / 1_000_000_000int;
            let earned = stake * interest_rate * t / 31_536_000int;
            &&& t >= 0
            &&& earned >= 0
            &&& rewards_due(now, since, interest_rate, commission, stake) == earned - earned
                * commission / 1_000_000_000_000_000_000int
        }),
{
    let f = DECIMAL_FRACTIONAL as int;
    let g = 1_000_000_000int;
    let y = 31_536_000int;
    let t = now as int / g - since as int / g;
    assert(since as int / g <= now as int / g) by {
        vstd::arithmetic::div_mod::lemma_div_is_ordered(since as int, now as int, g);
    }
    let q = since as int / g;
    vstd::arithmetic::div_mod::lemma_fundamental_div_mod(now as int, g);
    let r = now as int % g;
    assert(0 <= r < g);
    assert(now - q * g == g * t + r) by (nonlinear_arith)
        requires
            now as int == g * (now as int / g) + r,
            t == now as int / g - q,
    ;
    vstd::arithmetic::div_mod::lemma_div_multiples_vanish_fancy(t, r, g);
    assert(elapsed_seconds(now, since) == t);
    let x = stake * interest_rate;
    assert(x >= 0) by (nonlinear_arith)
        requires
            x == stake * interest_rate,
    ;
    assert((stake * f) * interest_rate == f * x) by (nonlinear_arith)
        requires
            x == stake * interest_rate,
    ;
    vstd::arithmetic::div_mod::lemma_div_multiples_vanish(x, f);
    let a = (stake * f) * interest_rate / f;
    assert(a == x);
    assert(a * (t * f) == f * (x * t)) by (nonlinear_arith)
        requires
            a == x,
    ;
    vstd::arithmetic::div_mod::lemma_div_multiples_vanish(x * t, f);
    let b = a * (t * f) / f;
    assert(b == x * t);
    assert(b >= 0) by (nonlinear_arith)
        requires
            b == x * t,
            x >= 0,
            t >= 0,
    ;
    vstd::arithmetic::div_mod::lemma_div_multiples_vanish_quotient(f, b, y);
    assert(b * f == f * b && y * f == f * y) by (nonlinear_arith);
    assert(b * f / (y * f) == b / y);
    assert(stake * interest_rate * t == b);
    vstd::arithmetic::div_mod::lemma_div_pos_is_pos(b, y);
}

/// Calculates the rewards that are due since the last calculation.
pub fn calculate_rewards(
    current_time: u64,
    since: u64,
    interest_rate: u128,
    validator_commission: u128,
    stake: u128,
) -> (r: u128)
    requires
        rewards_ok(current_time, since, interest_rate, validator_commission, stake),
    ensures
        r == rewards_due(current_time, since, interest_rate, validator_commission, stake),
{
    // calculate time since last update (in seconds)
    let since_seconds: u64 = since / NANOS_PER_SECOND;
    assert(since_seconds * NANOS_PER_SECOND <= since) by (nonlinear_arith)
        requires
            since_seconds == since as int / 1_000_000_000int,
    ;
    let time_diff: u64 = (current_time - since_seconds * NANOS_PER_SECOND) / NANOS_PER_SECOND;
    assert(time_diff * DECIMAL_FRACTIONAL <= u128::MAX) by (nonlinear_arith)
        requires
            time_diff <= u64::MAX,
    ;
    // using decimal here to reduce rounding error when calling this function a lot
    let s = decimal_from_ratio(stake, 1);
    let a = decimal_mul(s, interest_rate);
    let t = decimal_from_ratio(time_diff as u128, 1);
    let b = decimal_mul(a, t);
    let y = decimal_from_ratio(SECONDS_PER_YEAR, 1);
    assert(b * (DECIMAL_FRACTIONAL as int) / (y as int) <= u128::MAX) by (nonlinear_arith)
        requires
            y == 31_536_000int * 1_000_000_000_000_000_000int,
            b <= u128::MAX,
    ;
    let reward = decimal_div(b, y);
    assert(reward * validator_commission / (DECIMAL_FRACTIONAL as int) <= u128::MAX) by (
    nonlinear_arith)
        requires
            reward * validator_commission / (DECIMAL_FRACTIONAL as int) <= reward,
            reward <= u128::MAX,
    ;
    let commission = decimal_mul(reward, validator_commission);
    reward - commission
}

} // verus!

verus! {

/// A copy of a list of addresses.
pub fn copy_addresses(v: &Vec<String>) -> (r: Vec<String>)
    ensures
        r@ == v@,
{
    let mut out: Vec<String> = Vec::new();
    let mut i: usize = 0;
    while i < v.len()
        invariant
            i <= v@.len(),
            out@ == v@.subrange(0, i as int),
        decreases v@.len() - i,
    {
        let s = v[i].clone();
        out.push(s);
        assert(out@ =~= v@.subrange(0, i + 1));
        i = i + 1;
    }
    assert(v@.subrange(0, v@.len() as int) =~= v@);
    out
}

/// A copy of a validator's data.
pub fn copy_info(vi: &ValidatorInfo) -> (r: ValidatorInfo)
    ensures
        r.stakers@ == vi.stakers@,
        r.stake == vi.stake,
        r.last_rewards_calculation == vi.last_rewards_calculation,
{
    ValidatorInfo {
        stakers: copy_addresses(&vi.stakers),
        stake: vi.stake,
        last_rewards_calculation: vi.last_rewards_calculation,
    }
}

/// A copy of a validator.
pub fn copy_validator(v: &Validator) -> (r: Validator)
    ensures
        r.address@ == v.address@,
        r.commission == v.commission,
        r.max_commission == v.max_commission,
        r.max_change_rate == v.max_change_rate,
{
    Validator {
        address: v.address.clone(),
        commission: v.commission,
        max_commission: v.max_commission,
        max_change_rate: v.max_change_rate,
    }
}

/// Adds an address to a list of distinct addresses, unless it is there already.
pub fn insert_address(v: &mut Vec<String>, a: String)
    requires
        distinct_addresses(old(v)@),
    ensures
        distinct_addresses(final(v)@),
        address_set(final(v)@) == address_set(old(v)@).insert(a@),
{
    let mut i: usize = 0;
    while i < v.len()
        invariant
            i <= v@.len(),
            v@ == old(v)@,
            distinct_addresses(v@),
            forall|j: int| 0 <= j < i ==> v@[j]@ != a@,
        decreases v@.len() - i,
    {
        if v[i] == a {
            assert(address_set(v@) =~= address_set(v@).insert(a@));
            return;
        }
        i = i + 1;
    }
    let ghost before = v@;
    v.push(a);
    proof {
        assert forall|x: Seq<char>| #[trigger] address_set(v@).contains(x) == address_set(
            before,
        ).insert(a@).contains(x) by {
            if address_set(before).contains(x) {
                let j = choose|j: int| 0 <= j < before.len() && before[j]@ == x;
                assert(v@[j]@ == x);
            }
            if x == a@ {
                assert(v@[before.len() as int]@ == x);
            }
            if address_set(v@).contains(x) {
                let j = choose|j: int| 0 <= j < v@.len() && v@[j]@ == x;
                if j < before.len() {
                    assert(before[j]@ == x);
                }
            }
        }
        assert(address_set(v@) =~= address_set(before).insert(a@));
    }
}

/// Removes an address from a list of distinct addresses.
pub fn remove_address(v: &mut Vec<String>, a: &String)
    requires
        distinct_addresses(old(v)@),
    ensures
        distinct_addresses(final(v)@),
        address_set(final(v)@) == address_set(old(v)@).remove(a@),
{
    let mut i: usize = 0;
    while i < v.len()
        invariant
            i <= v@.len(),
            v@ == old(v)@,
            distinct_addresses(v@),
            forall|j: int| 0 <= j < i ==> v@[j]@ != a@,
        decreases v@.len() - i,
    {
        if v[i] == *a {
            let ghost before = v@;
            v.remove(i);
            proof {
                assert(v@ == before.remove(i as int));
                assert forall|x: Seq<char>| #[trigger] address_set(v@).contains(x) == address_set(
                    before,
                ).remove(a@).contains(x) by {
                    if address_set(before).contains(x) && x != a@ {
                        let j = choose|j: int| 0 <= j < before.len() && before[j]@ == x;
                        if j < i {
                            assert(v@[j]@ == x);
                        } else {
                            assert(j != i);
                            assert(v@[j - 1]@ == x);
                        }
                    }
                    if address_set(v@).contains(x) {
                        let j = choose|j: int| 0 <= j < v@.len() && v@[j]@ == x;
                        let j0 = if j < i { j } else { j + 1 };
                        assert(before[j0]@ == x);
                        assert(x != a@);
                    }
                }
                assert(address_set(v@) =~= address_set(before).remove(a@));
                assert forall|p: int, q: int| 0 <= p < q < v@.len() implies #[trigger] v@[p]@
                    != #[trigger] v@[q]@ by {
                    let p0 = if p < i { p } else { p + 1 };
                    let q0 = if q < i { q } else { q + 1 };
                    assert(before[p0]@ != before[q0]@);
                }
            }
            return;
        }
        i = i + 1;
    }
    assert(address_set(v@) =~= address_set(v@).remove(a@));
}

} // verus!

verus! {

/// Why a staking operation failed.
#[derive(Clone, Copy, Debug, PartialEq, Eq, Structural)]
pub enum StakingError {
    /// A validator with that address already exists.
    ValidatorExists,
    /// The validator is unknown to the module.
    ValidatorNotFound,
    /// A query or reward withdrawal names a validator that does not exist.
    NonExistentValidator,
    /// The delegator has no stake with the validator.
    StakeNotFound,
    /// Less stake than asked to remove.
    InsufficientStake,
    /// The validator's total stake would leave the range of `u128`.
    Overflow,
    /// Zero coins cannot be delegated.
    ZeroAmount,
    /// The coins are not of the bonded denomination.
    WrongDenom,
    /// A slash percentage above 100%.
    InvalidPercentage,
    /// The module does not handle this message.
    Unsupported,
    /// The chain refused an address that the message names.
    InvalidAddress,
}

/// A delegator's tokens waiting to be paid out after unbonding.
#[derive(Clone, Debug, PartialEq, Eq)]
pub struct Unbonding {
    pub delegator: String,
    /// When the tokens are paid out, in nanoseconds.
    pub payout_at: u64,
    pub amount: u128,
}

/// What is known of an unbonding.
pub struct UnbondingView {
    pub delegator: Seq<char>,
    pub payout_at: u64,
    pub amount: u128,
}

pub open spec fn unbonding_view(u: Unbonding) -> UnbondingView {
    UnbondingView { delegator: u.delegator@, payout_at: u.payout_at, amount: u.amount }
}

/// The state of the staking module as values: its parameters, its validators by address
/// and in the order they were added, their operational data, the shares of each
/// (delegator, validator) pair, and the queue of unbondings.
#[verifier::ext_equal]
pub struct StakingModel {
    pub denom: Seq<char>,
    pub unbonding_time: u64,
    pub apr: u128,
    pub validators: Map<Seq<char>, ValidatorView>,
    pub validator_list: Seq<ValidatorView>,
    pub validator_info: Map<Seq<char>, InfoView>,
    pub stakes: Map<(Seq<char>, Seq<char>), Shares>,
    pub unbonding_queue: Seq<UnbondingView>,
}

impl StakingModel {
    /// The rewards that validator `v` accrued since its last calculation, as of `now`.
    pub open spec fn pending_rewards(self, v: Seq<char>, now: u64) -> int {
        rewards_due(
            now,
            self.validator_info[v].last_rewards_calculation,
            self.apr,
            self.validators[v].commission,
            self.validator_info[v].stake,
        )
    }

    /// Updating the rewards of `v` at `now` neither overflows nor divides by zero.
    pub open spec fn update_rewards_ok(self, v: Seq<char>, now: u64) -> bool {
        let vi = self.validator_info[v];
        (self.validator_info.contains_key(v) && vi.last_rewards_calculation < now) ==> {
            &&& rewards_ok(
                now,
                vi.last_rewards_calculation,
                self.apr,
                self.validators[v].commission,
                vi.stake,
            )
            &&& self.pending_rewards(v, now) != 0 ==> forall|d: Seq<char>| #[trigger]
                self.stakes.contains_key((d, v)) ==> {
                    &&& share_ok(
                        self.pending_rewards(v, now) as u128,
                        self.stakes[(d, v)].stake,
                        vi.stake,
                    )
                    &&& self.stakes[(d, v)].rewards + share_of(
                        self.pending_rewards(v, now) as u128,
                        self.stakes[(d, v)].stake,
                        vi.stake,
                    ) <= u128::MAX
                }
        }
    }

    /// The rewards of `v` at `now` change the state: the validator has data, its last
    /// calculation lies before `now`, and the rewards since then are not zero.
    pub open spec fn rewards_change(self, v: Seq<char>, now: u64) -> bool {
        &&& self.validator_info.contains_key(v)
        &&& self.validator_info[v].last_rewards_calculation < now
        &&& self.pending_rewards(v, now) != 0
    }

    /// The rewards of `v` are settled at `now`: the validator has data and its last
    /// calculation lies before `now`.
    pub open spec fn rewards_settle(self, v: Seq<char>, now: u64) -> bool {
        &&& self.validator_info.contains_key(v)
        &&& self.validator_info[v].last_rewards_calculation < now
    }

    /// The state after the rewards of `v` were settled at `now`: each staker of `v` got its
    /// share of the pending rewards (when there are any), and the calculation time moved to
    /// `now`, also when nothing was due, so that later stake earns only from then on.
    pub open spec fn after_rewards(self, v: Seq<char>, now: u64) -> StakingModel {
        if self.rewards_settle(v, now) {
            StakingModel {
                validator_info: self.validator_info.insert(
                    v,
                    InfoView {
                        stakers: self.validator_info[v].stakers,
                        stake: self.validator_info[v].stake,
                        last_rewards_calculation: now,
                    },
                ),
                stakes: if self.pending_rewards(v, now) != 0 {
                    with_rewards(
                        self.stakes,
                        v,
                        self.validator_info[v].stake,
                        self.pending_rewards(v, now) as u128,
                    )
                } else {
                    self.stakes
                },
                ..self
            }
        } else {
            self
        }
    }

    /// The shares of `d` with `v` (no shares count as zero).
    pub open spec fn shares_of(self, d: Seq<char>, v: Seq<char>) -> Shares {
        if self.stakes.contains_key((d, v)) {
            self.stakes[(d, v)]
        } else {
            Shares { stake: 0, rewards: 0 }
        }
    }

    /// Changing the stake of `d` with `v` by `amount` tokens at `now` does not panic: the
    /// rewards can be updated and the stake, as a decimal, stays within range.
    pub open spec fn update_stake_ok(
        self,
        d: Seq<char>,
        v: Seq<char>,
        now: u64,
        amount: u128,
        sub: bool,
    ) -> bool {
        amount != 0 ==> {
            &&& self.update_rewards_ok(v, now)
            &&& amount * (DECIMAL_FRACTIONAL as int) <= u128::MAX
            &&& !sub ==> self.after_rewards(v, now).shares_of(d, v).stake + amount * (
            DECIMAL_FRACTIONAL as int) <= u128::MAX
        }
    }

    /// The error that changing the stake of `d` with `v` by `amount` tokens gives, if any.
    pub open spec fn update_stake_error(
        self,
        d: Seq<char>,
        v: Seq<char>,
        now: u64,
        amount: u128,
        sub: bool,
    ) -> Option<StakingError> {
        let sh = self.after_rewards(v, now).shares_of(d, v);
        let vs = self.validator_info[v].stake;
        if amount == 0 {
            None
        } else if !self.validator_info.contains_key(v) {
            Some(StakingError::ValidatorNotFound)
        } else if sub && amount * (DECIMAL_FRACTIONAL as int) > sh.stake {
            Some(StakingError::InsufficientStake)
        } else if sub && amount > vs {
            Some(StakingError::Overflow)
        } else if !sub && vs + amount > u128::MAX {
            Some(StakingError::Overflow)
        } else {
            None
        }
    }

    /// The state after a successful change of the stake of `d` with `v` by `amount` tokens:
    /// the rewards of `v` are updated first; shares left at zero are removed together
    /// with the staker.
    pub open spec fn after_update(
        self,
        d: Seq<char>,
        v: Seq<char>,
        now: u64,
        amount: u128,
        sub: bool,
    ) -> StakingModel {
        let m1 = self.after_rewards(v, now);
        let sh = m1.shares_of(d, v);
        let n = if sub {
            sh.stake - amount * (DECIMAL_FRACTIONAL as int)
        } else {
            sh.stake + amount * (DECIMAL_FRACTIONAL as int)
        };
        let i1 = m1.validator_info[v];
        if amount == 0 {
            self
        } else {
            StakingModel {
                stakes: if n == 0 {
                    m1.stakes.remove((d, v))
                } else {
                    m1.stakes.insert((d, v), Shares { stake: n as u128, rewards: sh.rewards })
                },
                validator_info: m1.validator_info.insert(
                    v,
                    InfoView {
                        stakers: if n == 0 {
                            i1.stakers.remove(d)
                        } else {
                            i1.stakers.insert(d)
                        },
                        stake: (if sub {
                            i1.stake - amount
                        } else {
                            i1.stake + amount
                        }) as u128,
                        last_rewards_calculation: i1.last_rewards_calculation,
                    },
                ),
                ..m1
            }
        }
    }

    /// The validator's stake after slashing `percentage` of it at `now`.
    pub open spec fn slashed_stake(self, v: Seq<char>, now: u64, percentage: u128) -> int {
        self.after_rewards(v, now).validator_info[v].stake * (DECIMAL_FRACTIONAL - percentage) / (
        DECIMAL_FRACTIONAL as int)
    }

    /// The state after slashing `percentage` of validator `v` at `now`: rewards first, then
    /// the validator's stake and every staker's stake are scaled down; a validator left
    /// with nothing loses all its stakers.
    pub open spec fn after_slash(self, v: Seq<char>, now: u64, percentage: u128) -> StakingModel {
        let m1 = self.after_rewards(v, now);
        let ns = self.slashed_stake(v, now, percentage);
        StakingModel {
            validator_info: m1.validator_info.insert(
                v,
                InfoView {
                    stakers: if ns == 0 {
                        Set::empty()
                    } else {
                        m1.validator_info[v].stakers
                    },
                    stake: ns as u128,
                    last_rewards_calculation: m1.validator_info[v].last_rewards_calculation,
                },
            ),
            stakes: slash_shares(
                m1.stakes,
                v,
                Set::full(),
                (DECIMAL_FRACTIONAL - percentage) as u128,
                ns == 0,
            ),
            ..m1
        }
    }
}

/// The shares after the stakers in `done` of validator `v` got their part of `new_rewards`.
pub open spec fn spread_rewards(
    stakes: Map<(Seq<char>, Seq<char>), Shares>,
    v: Seq<char>,
    done: Set<Seq<char>>,
    validator_stake: u128,
    new_rewards: u128,
) -> Map<(Seq<char>, Seq<char>), Shares> {
    Map::new(
        |k: (Seq<char>, Seq<char>)| stakes.contains_key(k),
        |k: (Seq<char>, Seq<char>)|
            if k.1 == v && done.contains(k.0) {
                Shares {
                    stake: stakes[k].stake,
                    rewards: (stakes[k].rewards + share_of(
                        new_rewards,
                        stakes[k].stake,
                        validator_stake,
                    )) as u128,
                }
            } else {
                stakes[k]
            },
    )
}

/// The shares after every staker of validator `v` got its part of `new_rewards`.
pub open spec fn with_rewards(
    stakes: Map<(Seq<char>, Seq<char>), Shares>,
    v: Seq<char>,
    validator_stake: u128,
    new_rewards: u128,
) -> Map<(Seq<char>, Seq<char>), Shares> {
    spread_rewards(stakes, v, Set::full(), validator_stake, new_rewards)
}

/// The shares after the stakers in `done` of validator `v` were slashed to `remaining`
/// (a decimal fraction): removed when the validator lost everything, scaled down otherwise.
pub open spec fn slash_shares(
    stakes: Map<(Seq<char>, Seq<char>), Shares>,
    v: Seq<char>,
    done: Set<Seq<char>>,
    remaining: u128,
    cleared: bool,
) -> Map<(Seq<char>, Seq<char>), Shares> {
    Map::new(
        |k: (Seq<char>, Seq<char>)|
            stakes.contains_key(k) && !(cleared && k.1 == v && done.contains(k.0)),
        |k: (Seq<char>, Seq<char>)|
            if k.1 == v && done.contains(k.0) {
                Shares {
                    stake: (stakes[k].stake * remaining / (DECIMAL_FRACTIONAL as int)) as u128,
                    rewards: stakes[k].rewards,
                }
            } else {
                stakes[k]
            },
    )
}

/// The state of the staking module.
pub struct StakingState {
    info: StakingInfo,
    validators: Table<String, Validator>,
    validator_info: Table<String, ValidatorInfo>,
    stakes: Table<(String, String), Shares>,
    unbonding_queue: Vec<Unbonding>,
}

impl StakingState {
    /// The state as values.
    pub closed spec fn model(&self) -> StakingModel {
        StakingModel {
            denom: self.info.bonded_denom@,
            unbonding_time: self.info.unbonding_time,
            apr: self.info.apr,
            validators: self.validators.view().map_values(|v: Validator| validator_view(v)),
            validator_list: self.validators.entries().map_values(
                |e: (String, Validator)| validator_view(e.1),
            ),
            validator_info: self.validator_info.view().map_values(
                |vi: ValidatorInfo| info_view(vi),
            ),
            stakes: self.stakes.view(),
            unbonding_queue: self.unbonding_queue@.map_values(|u: Unbonding| unbonding_view(u)),
        }
    }

    /// The module's bookkeeping is consistent: every validator has its data, its
    /// stakers are exactly the delegators with shares in it, and shares only exist for
    /// known validators.
    pub closed spec fn wf(&self) -> bool {
        &&& self.validators.wf()
        &&& self.validator_info.wf()
        &&& self.stakes.wf()
        &&& forall|i: int|
            0 <= i < self.validators.entries().len() ==> #[trigger] self.validators.entries()[i].0@
                == self.validators.entries()[i].1.address@
        &&& self.validator_info.view().dom() == self.validators.view().dom()
        &&& forall|v: Seq<char>| #[trigger]
            self.validator_info.view().contains_key(v) ==> distinct_addresses(
                self.validator_info.view()[v].stakers@,
            )
        &&& forall|d: Seq<char>, v: Seq<char>| #[trigger]
            self.stakes.view().contains_key((d, v)) ==> self.validator_info.view().contains_key(v)
        &&& forall|d: Seq<char>, v: Seq<char>|
            #![trigger self.stakes.view().contains_key((d, v)), self.validator_info.view()[v]]
            self.validator_info.view().contains_key(v) ==> (address_set(
                self.validator_info.view()[v].stakers@,
            ).contains(d) <==> self.stakes.view().contains_key((d, v)))
    }

    /// What the consistency of the bookkeeping means for the model.
    pub proof fn lemma_wf(&self)
        requires
            self.wf(),
        ensures
            self.model().validator_info.dom() == self.model().validators.dom(),
            forall|d: Seq<char>, v: Seq<char>| #[trigger]
                self.model().stakes.contains_key((d, v)) ==> self.model().validator_info.contains_key(v),
            forall|d: Seq<char>, v: Seq<char>|
                #![trigger self.model().stakes.contains_key((d, v)), self.model().validator_info[v]]
                self.model().validator_info.contains_key(v) ==> (
                self.model().validator_info[v].stakers.contains(d)
                    <==> self.model().stakes.contains_key((d, v))),
            forall|v: Seq<char>| #[trigger]
                self.model().validators.contains_key(v) ==> self.model().validators[v].address == v,
    {
        assert forall|v: Seq<char>| #[trigger]
            self.model().validators.contains_key(v) implies self.model().validators[v].address == v by {
            let i = self.validators.lemma_key_entry(v);
        }
        assert forall|d: Seq<char>, v: Seq<char>|
            #![trigger self.model().stakes.contains_key((d, v)), self.model().validator_info[v]]
            self.model().validator_info.contains_key(v) implies (
            self.model().validator_info[v].stakers.contains(d)
                <==> self.model().stakes.contains_key((d, v))) by {
            assert(self.model().validator_info[v] == info_view(self.validator_info.view()[v]));
        }
    }

    /// A module with the default parameters and nothing staked.
    pub fn new() -> (r: Self)
        ensures
            r.wf(),
            r.model().denom == "TOKEN"@,
            r.model().unbonding_time == 60,
            r.model().apr == 100_000_000_000_000_000,
            r.model().validators == Map::<Seq<char>, ValidatorView>::empty(),
            r.model().validator_list == Seq::<ValidatorView>::empty(),
            r.model().validator_info == Map::<Seq<char>, InfoView>::empty(),
            r.model().stakes == Map::<(Seq<char>, Seq<char>), Shares>::empty(),
            r.model().unbonding_queue == Seq::<UnbondingView>::empty(),
    {
        let r = StakingState {
            info: StakingInfo::default_info(),
            validators: Table::new(),
            validator_info: Table::new(),
            stakes: Table::new(),
            unbonding_queue: Vec::new(),
        };
        assert(r.validators.entries().len() == 0) by {
            r.validators.lemma_entries_of_empty();
        }
        assert(r.model().validators =~= Map::<Seq<char>, ValidatorView>::empty());
        assert(r.model().validator_list =~= Seq::<ValidatorView>::empty());
        assert(r.model().validator_info =~= Map::<Seq<char>, InfoView>::empty());
        assert(r.model().unbonding_queue =~= Seq::<UnbondingView>::empty());
        r
    }

    /// Provides some general parameters to the stake keeper
    pub fn setup(&mut self, staking_info: StakingInfo)
        requires
            old(self).wf(),
        ensures
            final(self).wf(),
            final(self).model() == (StakingModel {
                denom: staking_info.bonded_denom@,
                unbonding_time: staking_info.unbonding_time,
                apr: staking_info.apr,
                ..old(self).model()
            }),
    {
        self.info = staking_info;
        assert(self.model() =~= (StakingModel {
            denom: staking_info.bonded_denom@,
            unbonding_time: staking_info.unbonding_time,
            apr: staking_info.apr,
            ..old(self).model()
        }));
    }

    /// The staking parameters.
    pub fn get_staking_info(&self) -> (r: StakingInfo)
        ensures
            r.bonded_denom@ == self.model().denom,
            r.unbonding_time == self.model().unbonding_time,
            r.apr == self.model().apr,
    {
        StakingInfo {
            bonded_denom: self.info.bonded_denom.clone(),
            unbonding_time: self.info.unbonding_time,
            apr: self.info.apr,
        }
    }

    /// Add a new validator available for staking, once the chain's check accepted its
    /// address (`address_accepted`)
    pub fn add_validator(
        &mut self,
        block_time: u64,
        validator: Validator,
        address_accepted: bool,
    ) -> (r: Result<(), StakingError>)
        requires
            old(self).wf(),
        ensures
            final(self).wf(),
            !address_accepted ==> r == Err::<(), StakingError>(StakingError::InvalidAddress),
            r is Err <==> !address_accepted || old(self).model().validators.contains_key(
                validator.address@,
            ),
            address_accepted && r is Err ==> r == Err::<(), StakingError>(
                StakingError::ValidatorExists,
            ),
            r is Err ==> final(self).model() == old(self).model(),
            r is Ok ==> final(self).model() == (StakingModel {
                validators: old(self).model().validators.insert(
                    validator.address@,
                    validator_view(validator),
                ),
                validator_list: old(self).model().validator_list.push(validator_view(validator)),
                validator_info: old(self).model().validator_info.insert(
                    validator.address@,
                    InfoView {
                        stakers: Set::empty(),
                        stake: 0,
                        last_rewards_calculation: block_time,
                    },
                ),
                ..old(self).model()
            }),
    {
        if !address_accepted {
            return Err(StakingError::InvalidAddress);
        }
        if self.validators.get(&validator.address).is_some() {
            return Err(StakingError::ValidatorExists);
        }
        let ghost old_entries = self.validators.entries();
        let key = validator.address.clone();
        let info_key = validator.address.clone();
        let ghost vkey = validator.address@;
        let ghost vview = validator_view(validator);
        self.validators.set(key, validator);
        let info = ValidatorInfo::new(block_time);
        assert(info.stakers@ =~= Seq::<String>::empty());
        self.validator_info.set(info_key, info);
        proof {
            let expected = StakingModel {
                validators: old(self).model().validators.insert(vkey, vview),
                validator_list: old(self).model().validator_list.push(vview),
                validator_info: old(self).model().validator_info.insert(
                    vkey,
                    InfoView {
                        stakers: Set::empty(),
                        stake: 0,
                        last_rewards_calculation: block_time,
                    },
                ),
                ..old(self).model()
            };
            assert(self.model().validator_list =~= expected.validator_list);
            assert(self.model().validators =~= expected.validators);
            assert(address_set(Seq::<String>::empty()) =~= Set::<Seq<char>>::empty());
            assert(self.model().validator_info =~= expected.validator_info);
            assert(self.model() =~= expected);
            assert forall|i: int|
                0 <= i < self.validators.entries().len() implies #[trigger] self.validators.entries()[i].0@
                == self.validators.entries()[i].1.address@ by {
                if i < old_entries.len() {
                    assert(self.validators.entries()[i] == old_entries[i]);
                }
            }
            assert(self.validator_info.view().dom() =~= self.validators.view().dom());
            assert forall|d: Seq<char>, v: Seq<char>|
                #![trigger self.stakes.view().contains_key((d, v)), self.validator_info.view()[v]]
                self.validator_info.view().contains_key(v) implies (address_set(
                self.validator_info.view()[v].stakers@,
            ).contains(d) <==> self.stakes.view().contains_key((d, v))) by {
                if v == vkey {
                    assert(!old(self).validator_info.view().contains_key(v));
                    assert(!self.stakes.view().contains_key((d, v)));
                    assert(self.validator_info.view()[v].stakers@.len() == 0);
                } else {
                    assert(old(self).validator_info.view().contains_key(v));
                    assert(old(self).validator_info.view()[v] == self.validator_info.view()[v]);
                }
            }
        }
        Ok(())
    }

    /// Returns the single validator with the given address (or `None` if there is no such validator)
    pub fn get_validator(&self, address: &String) -> (r: Option<Validator>)
        requires
            self.wf(),
        ensures
            r is Some <==> self.model().validators.contains_key(address@),
            r matches Some(v) ==> validator_view(v) == self.model().validators[address@],
    {
        match self.validators.get(address) {
            Some(v) => Some(copy_validator(v)),
            None => None,
        }
    }

    /// Returns all available validators, in the order they were added
    pub fn get_validators(&self) -> (r: Vec<Validator>)
        requires
            self.wf(),
        ensures
            r@.map_values(|v: Validator| validator_view(v)) == self.model().validator_list,
    {
        let mut out: Vec<Validator> = Vec::new();
        let n = self.validators.len();
        let mut i: usize = 0;
        while i < n
            invariant
                n == self.validators.entries().len(),
                i <= n,
                out@.len() == i,
                forall|j: int|
                    0 <= j < i ==> #[trigger] validator_view(out@[j])
                        == self.model().validator_list[j],
            decreases n - i,
        {
            let e = self.validators.entry(i);
            let v = copy_validator(&e.1);
            out.push(v);
            i = i + 1;
        }
        assert(out@.map_values(|v: Validator| validator_view(v)) =~= self.model().validator_list);
        out
    }

    /// The stake of an account with a validator, as a coin of the bonded denomination
    /// (the shares rounded down to whole tokens).
    pub fn get_stake(&self, account: &String, validator: &String) -> (r: Option<Coin>)
        requires
            self.wf(),
        ensures
            r is Some <==> self.model().stakes.contains_key((account@, validator@)),
            r matches Some(c) ==> c.denom@ == self.model().denom && c.amount
                == self.model().stakes[(account@, validator@)].stake / DECIMAL_FRACTIONAL,
    {
        let key = (account.clone(), validator.clone());
        match self.stakes.get(&key) {
            Some(shares) => {
                let amount = uint_mul_decimal(1, shares.stake);
                Some(Coin { denom: self.info.bonded_denom.clone(), amount })
            },
            None => None,
        }
    }
}

} // verus!

verus! {

impl StakingState {
    /// Updates the staking reward for the given validator and their stakers.
    /// Always call this to update rewards before changing anything that influences future rewards.
    pub fn update_rewards(&mut self, block_time: u64, validator: &String) -> (r: Result<
        (),
        StakingError,
    >)
        requires
            old(self).wf(),
            old(self).model().update_rewards_ok(validator@, block_time),
        ensures
            final(self).wf(),
            r is Err <==> !old(self).model().validator_info.contains_key(validator@),
            r is Err ==> r == Err::<(), StakingError>(StakingError::ValidatorNotFound),
            final(self).model() == old(self).model().after_rewards(validator@, block_time),
    {
        let vi = match self.validator_info.get(validator) {
            Some(vi) => copy_info(vi),
            None => {
                return Err(StakingError::ValidatorNotFound);
            },
        };
        let commission = match self.validators.get(validator) {
            Some(v) => v.commission,
            None => {
                return Err(StakingError::ValidatorNotFound);
            },
        };
        proof {
            assert(self.model().validator_info[validator@] == info_view(
                self.validator_info.view()[validator@],
            ));
        }
        if vi.last_rewards_calculation >= block_time {
            return Ok(());
        }
        let new_rewards = calculate_rewards(
            block_time,
            vi.last_rewards_calculation,
            self.info.apr,
            commission,
            vi.stake,
        );
        // update validator info and delegators
        if new_rewards != 0 {
            let ghost v = validator@;
            let ghost old_stakes = self.stakes.view();
            let n = vi.stakers.len();
            let mut i: usize = 0;
            while i < n
                invariant
                    n == vi.stakers@.len(),
                    i <= n,
                    self.stakes.wf(),
                    new_rewards == old(self).model().pending_rewards(v, block_time),
                    new_rewards != 0,
                    old(self).wf(),
                    old(self).model().update_rewards_ok(v, block_time),
                    old(self).validator_info.view().contains_key(v),
                    vi.stakers@ == old(self).validator_info.view()[v].stakers@,
                    vi.stake == old(self).validator_info.view()[v].stake,
                    vi.last_rewards_calculation == old(self).validator_info.view()[v].last_rewards_calculation,
                    vi.last_rewards_calculation < block_time,
                    self.validator_info.wf(),
                    self.validators.wf(),
                    self.validator_info.view() == old(self).validator_info.view(),
                    self.validators.view() == old(self).validators.view(),
                    self.validators.entries() == old(self).validators.entries(),
                    self.info == old(self).info,
                    self.unbonding_queue@ == old(self).unbonding_queue@,
                    v == validator@,
                    old_stakes == old(self).stakes.view(),
                    self.stakes.view() == spread_rewards(
                        old_stakes,
                        v,
                        address_set(vi.stakers@.subrange(0, i as int)),
                        vi.stake,
                        new_rewards,
                    ),
                decreases n - i,
            {
                let ghost d = vi.stakers@[i as int]@;
                let ghost s_1 = vi.stakers@.subrange(0, i as int);
                let ghost done = address_set(s_1);
                proof {
                    assert(old(self).model().validator_info[v] == info_view(
                        old(self).validator_info.view()[v],
                    ));
                    assert(address_set(vi.stakers@).contains(d)) by {
                        assert(vi.stakers@[i as int]@ == d);
                    }
                    assert(old_stakes.contains_key((d, v)));
                    assert(!done.contains(d)) by {
                        if done.contains(d) {
                            let j = choose|j: int| 0 <= j < s_1.len() && #[trigger] s_1[j]@ == d;
                            assert(vi.stakers@[j]@ == d);
                        }
                    }
                }
                let key = (vi.stakers[i].clone(), validator.clone());
                let shares = match self.stakes.get(&key) {
                    Some(s) => *s,
                    None => {
                        proof {
                            assert(self.stakes.view().contains_key((d, v)));
                        }
                        return Err(StakingError::StakeNotFound);
                    },
                };
                proof {
                    assert(shares == old_stakes[(d, v)]);
                    assert(old(self).model().stakes.contains_key((d, v)));
                }
                let add = shares.share_of_rewards(&vi, new_rewards);
                let updated = Shares { stake: shares.stake, rewards: shares.rewards + add };
                self.stakes.set(key, updated);
                proof {
                    let s_2 = vi.stakers@.subrange(0, i + 1);
                    let done2 = address_set(s_2);
                    assert(done2 =~= done.insert(d)) by {
                        assert forall|x: Seq<char>| #[trigger] done2.contains(x) == done.insert(
                            d,
                        ).contains(x) by {
                            if done2.contains(x) {
                                let j = choose|j: int| 0 <= j < s_2.len() && #[trigger] s_2[j]@ == x;
                                if j < i {
                                    assert(s_1[j] == s_2[j]);
                                }
                            }
                            if done.contains(x) {
                                let j = choose|j: int| 0 <= j < s_1.len() && #[trigger] s_1[j]@ == x;
                                assert(s_2[j] == s_1[j]);
                            }
                            if x == d {
                                assert(s_2[i as int]@ == x);
                            }
                        }
                    }
                    assert(self.stakes.view() =~= spread_rewards(
                        old_stakes,
                        v,
                        done2,
                        vi.stake,
                        new_rewards,
                    ));
                }
                i = i + 1;
            }
            proof {
                let all = address_set(vi.stakers@.subrange(0, n as int));
                assert(vi.stakers@.subrange(0, n as int) =~= vi.stakers@);
                assert(self.stakes.view() =~= with_rewards(old_stakes, v, vi.stake, new_rewards))
                    by {
                    assert forall|k: (Seq<char>, Seq<char>)| #[trigger]
                        old_stakes.contains_key(k) && k.1 == v implies all.contains(k.0) by {
                        assert(old(self).stakes.view().contains_key((k.0, k.1)));
                    }
                }
            }
        }
        let mut updated = vi;
        updated.last_rewards_calculation = block_time;
        self.validator_info.set(validator.clone(), updated);
        proof {
            let v = validator@;
            let sv = self.stakes.view();
            let iv = self.validator_info.view();
            assert(iv.dom() =~= old(self).validator_info.view().dom());
            assert forall|d: Seq<char>, w: Seq<char>| #[trigger]
                sv.contains_key((d, w)) implies iv.contains_key(w) by {
                assert(old(self).stakes.view().contains_key((d, w)));
            }
            assert forall|d: Seq<char>, w: Seq<char>|
                #![trigger sv.contains_key((d, w)), iv[w]]
                iv.contains_key(w) implies (address_set(iv[w].stakers@).contains(d)
                    <==> sv.contains_key((d, w))) by {
                assert(sv.contains_key((d, w)) == old(self).stakes.view().contains_key((d, w)));
                if w == v {
                    assert(iv[w].stakers@ == old(self).validator_info.view()[w].stakers@);
                } else {
                    assert(iv[w] == old(self).validator_info.view()[w]);
                }
            }
            assert forall|w: Seq<char>| #[trigger]
                iv.contains_key(w) implies distinct_addresses(iv[w].stakers@) by {
                if w != v {
                    assert(iv[w] == old(self).validator_info.view()[w]);
                }
            }
            let expected = old(self).model().after_rewards(validator@, block_time);
            assert(self.model().validator_info =~= expected.validator_info);
            assert(self.model().stakes =~= expected.stakes);
            assert(self.model() =~= expected);
        }
        Ok(())
    }

    /// Changes the stake of `delegator` with `validator` by `amount` tokens, up or down,
    /// after updating the validator's rewards.
    pub fn update_stake(
        &mut self,
        block_time: u64,
        delegator: &String,
        validator: &String,
        amount: u128,
        sub: bool,
    ) -> (r: Result<(), StakingError>)
        requires
            old(self).wf(),
            old(self).model().update_stake_ok(delegator@, validator@, block_time, amount, sub),
        ensures
            final(self).wf(),
            r == (match old(self).model().update_stake_error(
                delegator@,
                validator@,
                block_time,
                amount,
                sub,
            ) {
                Some(e) => Err::<(), StakingError>(e),
                None => Ok(()),
            }),
            r == Err::<(), StakingError>(StakingError::ValidatorNotFound) ==> final(self).model()
                == old(self).model(),
            r is Err && r != Err::<(), StakingError>(StakingError::ValidatorNotFound) ==> final(self).model() == old(self).model().after_rewards(validator@, block_time),
            r is Ok ==> final(self).model() == old(self).model().after_update(
                delegator@,
                validator@,
                block_time,
                amount,
                sub,
            ),
    {
        if amount == 0 {
            return Ok(());
        }
        // update rewards for this validator
        match self.update_rewards(block_time, validator) {
            Ok(()) => {},
            Err(e) => {
                return Err(e);
            },
        }
        let ghost s1 = *self;
        let ghost d = delegator@;
        let ghost v = validator@;
        proof {
            assert(s1.model().validator_info.contains_key(v));
            assert(s1.validator_info.view().contains_key(v));
            assert(s1.model().validator_info[v] == info_view(s1.validator_info.view()[v]));
        }
        // now, we can update the stake of the delegator and validator
        let mut vi = match self.validator_info.get(validator) {
            Some(vi) => copy_info(vi),
            None => ValidatorInfo::new(block_time),
        };
        let key = (delegator.clone(), validator.clone());
        let mut shares = match self.stakes.get(&key) {
            Some(s) => *s,
            None => Shares { stake: 0, rewards: 0 },
        };
        proof {
            assert(vi.stake == old(self).model().validator_info[v].stake);
            assert(shares == s1.model().shares_of(d, v));
        }
        let amount_dec = decimal_from_ratio(amount, 1);
        if sub {
            if amount_dec > shares.stake {
                return Err(StakingError::InsufficientStake);
            }
            shares.stake = shares.stake - amount_dec;
            match vi.stake.checked_sub(amount) {
                Some(x) => {
                    vi.stake = x;
                },
                None => {
                    return Err(StakingError::Overflow);
                },
            }
        } else {
            shares.stake = shares.stake + amount_dec;
            match vi.stake.checked_add(amount) {
                Some(x) => {
                    vi.stake = x;
                },
                None => {
                    return Err(StakingError::Overflow);
                },
            }
        }
        // save updated values
        if shares.stake == 0 {
            // no more stake, so remove
            self.stakes.remove(&key);
            remove_address(&mut vi.stakers, delegator);
        } else {
            self.stakes.set(key, shares);
            insert_address(&mut vi.stakers, delegator.clone());
        }
        // save updated validator info
        self.validator_info.set(validator.clone(), vi);
        proof {
            let sv = self.stakes.view();
            let iv = self.validator_info.view();
            assert(iv.dom() =~= s1.validator_info.view().dom());
            assert forall|x: Seq<char>, w: Seq<char>| #[trigger]
                sv.contains_key((x, w)) implies iv.contains_key(w) by {
                if (x, w) != (d, v) {
                    assert(s1.stakes.view().contains_key((x, w)));
                }
            }
            assert forall|x: Seq<char>, w: Seq<char>|
                #![trigger sv.contains_key((x, w)), iv[w]]
                iv.contains_key(w) implies (address_set(iv[w].stakers@).contains(x)
                    <==> sv.contains_key((x, w))) by {
                if w != v {
                    assert(iv[w] == s1.validator_info.view()[w]);
                    assert(sv.contains_key((x, w)) == s1.stakes.view().contains_key((x, w)));
                } else if x != d {
                    assert(sv.contains_key((x, w)) == s1.stakes.view().contains_key((x, w)));
                    assert(address_set(s1.validator_info.view()[w].stakers@).contains(x)
                        == s1.stakes.view().contains_key((x, w)));
                }
            }
            assert forall|w: Seq<char>| #[trigger]
                iv.contains_key(w) implies distinct_addresses(iv[w].stakers@) by {
                if w != v {
                    assert(iv[w] == s1.validator_info.view()[w]);
                }
            }
            let expected = old(self).model().after_update(d, v, block_time, amount, sub);
            assert(self.model().validator_info =~= expected.validator_info);
            assert(self.model().stakes =~= expected.stakes);
            assert(self.model() =~= expected);
        }
        Ok(())
    }

    /// Slashes `percentage` of the stake of `validator` and of each of its stakers, after
    /// updating its rewards. A validator left with nothing loses all its stakers.
    pub fn slash(&mut self, block_time: u64, validator: &String, percentage: u128) -> (r: Result<
        (),
        StakingError,
    >)
        requires
            old(self).wf(),
            old(self).model().update_rewards_ok(validator@, block_time),
            percentage <= DECIMAL_FRACTIONAL,
        ensures
            final(self).wf(),
            r is Err <==> !old(self).model().validator_info.contains_key(validator@),
            r is Err ==> r == Err::<(), StakingError>(StakingError::ValidatorNotFound),
            r is Err ==> final(self).model() == old(self).model(),
            r is Ok ==> final(self).model() == old(self).model().after_slash(
                validator@,
                block_time,
                percentage,
            ),
    {
        // calculate rewards before slashing
        match self.update_rewards(block_time, validator) {
            Ok(()) => {},
            Err(e) => {
                return Err(e);
            },
        }
        let ghost s1 = *self;
        let ghost v = validator@;
        proof {
            assert(s1.model().validator_info.contains_key(v));
            assert(s1.validator_info.view().contains_key(v));
            assert(s1.model().validator_info[v] == info_view(s1.validator_info.view()[v]));
        }
        // update stake of validator and stakers
        let mut vi = match self.validator_info.get(validator) {
            Some(vi) => copy_info(vi),
            None => {
                return Err(StakingError::ValidatorNotFound);
            },
        };
        let remaining_percentage = DECIMAL_FRACTIONAL - percentage;
        assert(vi.stake * remaining_percentage / (DECIMAL_FRACTIONAL as int) <= vi.stake) by (
        nonlinear_arith)
            requires
                remaining_percentage <= DECIMAL_FRACTIONAL,
        ;
        vi.stake = uint_mul_decimal(vi.stake, remaining_percentage);
        let cleared = vi.stake == 0;
        let n = vi.stakers.len();
        let mut i: usize = 0;
        while i < n
            invariant
                n == vi.stakers@.len(),
                i <= n,
                v == validator@,
                self.stakes.wf(),
                s1.wf(),
                s1.validator_info.view().contains_key(v),
                vi.stakers@ == s1.validator_info.view()[v].stakers@,
                remaining_percentage <= DECIMAL_FRACTIONAL,
                cleared == (vi.stake == 0),
                self.stakes.view() == slash_shares(
                    s1.stakes.view(),
                    v,
                    address_set(vi.stakers@.subrange(0, i as int)),
                    remaining_percentage,
                    cleared,
                ),
                self.validator_info.wf(),
                self.validators.wf(),
                self.validator_info.view() == s1.validator_info.view(),
                self.validators.view() == s1.validators.view(),
                self.validators.entries() == s1.validators.entries(),
                self.info == s1.info,
                self.unbonding_queue@ == s1.unbonding_queue@,
            decreases n - i,
        {
            let ghost d = vi.stakers@[i as int]@;
            let ghost s_1 = vi.stakers@.subrange(0, i as int);
            let ghost done = address_set(s_1);
            proof {
                assert(address_set(vi.stakers@).contains(d)) by {
                    assert(vi.stakers@[i as int]@ == d);
                }
                assert(s1.stakes.view().contains_key((d, v)));
                assert(!done.contains(d)) by {
                    if done.contains(d) {
                        let j = choose|j: int| 0 <= j < s_1.len() && #[trigger] s_1[j]@ == d;
                        assert(vi.stakers@[j]@ == d);
                    }
                }
            }
            let key = (vi.stakers[i].clone(), validator.clone());
            if cleared {
                self.stakes.remove(&key);
            } else {
                let shares = match self.stakes.get(&key) {
                    Some(s) => *s,
                    None => {
                        proof {
                            assert(self.stakes.view().contains_key((d, v)));
                        }
                        return Err(StakingError::StakeNotFound);
                    },
                };
                assert(shares.stake * remaining_percentage / (DECIMAL_FRACTIONAL as int)
                    <= shares.stake) by (nonlinear_arith)
                    requires
                        remaining_percentage <= DECIMAL_FRACTIONAL,
                ;
                let slashed = Shares {
                    stake: decimal_mul(shares.stake, remaining_percentage),
                    rewards: shares.rewards,
                };
                self.stakes.set(key, slashed);
            }
            proof {
                let s_2 = vi.stakers@.subrange(0, i + 1);
                let done2 = address_set(s_2);
                assert(done2 =~= done.insert(d)) by {
                    assert forall|x: Seq<char>| #[trigger] done2.contains(x) == done.insert(
                        d,
                    ).contains(x) by {
                        if done2.contains(x) {
                            let j = choose|j: int| 0 <= j < s_2.len() && #[trigger] s_2[j]@ == x;
                            if j < i {
                                assert(s_1[j] == s_2[j]);
                            }
                        }
                        if done.contains(x) {
                            let j = choose|j: int| 0 <= j < s_1.len() && #[trigger] s_1[j]@ == x;
                            assert(s_2[j] == s_1[j]);
                        }
                        if x == d {
                            assert(s_2[i as int]@ == x);
                        }
                    }
                }
                assert(self.stakes.view() =~= slash_shares(
                    s1.stakes.view(),
                    v,
                    done2,
                    remaining_percentage,
                    cleared,
                ));
            }
            i = i + 1;
        }
        proof {
            let all = address_set(vi.stakers@.subrange(0, n as int));
            assert(vi.stakers@.subrange(0, n as int) =~= vi.stakers@);
            assert(self.stakes.view() =~= slash_shares(
                s1.stakes.view(),
                v,
                Set::full(),
                remaining_percentage,
                cleared,
            )) by {
                assert forall|k: (Seq<char>, Seq<char>)| #[trigger]
                    s1.stakes.view().contains_key(k) && k.1 == v implies all.contains(k.0) by {
                    assert(s1.stakes.view().contains_key((k.0, k.1)));
                }
            }
        }
        if cleared {
            vi.stakers = Vec::new();
        }
        self.validator_info.set(validator.clone(), vi);
        proof {
            let sv = self.stakes.view();
            let iv = self.validator_info.view();
            assert(iv.dom() =~= s1.validator_info.view().dom());
            assert forall|x: Seq<char>, w: Seq<char>| #[trigger]
                sv.contains_key((x, w)) implies iv.contains_key(w) by {
                assert(s1.stakes.view().contains_key((x, w)));
            }
            assert forall|x: Seq<char>, w: Seq<char>|
                #![trigger sv.contains_key((x, w)), iv[w]]
                iv.contains_key(w) implies (address_set(iv[w].stakers@).contains(x)
                    <==> sv.contains_key((x, w))) by {
                if w != v {
                    assert(iv[w] == s1.validator_info.view()[w]);
                    assert(sv.contains_key((x, w)) == s1.stakes.view().contains_key((x, w)));
                } else {
                    assert(address_set(s1.validator_info.view()[w].stakers@).contains(x)
                        == s1.stakes.view().contains_key((x, w)));
                    if cleared {
                        assert(!address_set(iv[w].stakers@).contains(x));
                    }
                }
            }
            assert forall|w: Seq<char>| #[trigger]
                iv.contains_key(w) implies distinct_addresses(iv[w].stakers@) by {
                if w != v {
                    assert(iv[w] == s1.validator_info.view()[w]);
                }
            }
            if cleared {
                assert(address_set(Seq::<String>::empty()) =~= Set::<Seq<char>>::empty());
            }
            let expected = old(self).model().after_slash(v, block_time, percentage);
            assert(self.model().validator_info =~= expected.validator_info);
            assert(self.model().stakes =~= expected.stakes);
            assert(self.model() =~= expected);
        }
        Ok(())
    }
}

} // verus!

verus! {

impl StakingModel {
    /// The error that changing the stake of `d` with `v` by a coin gives, if any: the coin
    /// must be of the bonded denomination and not zero.
    pub open spec fn change_error(
        self,
        d: Seq<char>,
        v: Seq<char>,
        now: u64,
        denom: Seq<char>,
        amount: u128,
        sub: bool,
    ) -> Option<StakingError> {
        if denom != self.denom {
            Some(StakingError::WrongDenom)
        } else if amount == 0 {
            Some(StakingError::ZeroAmount)
        } else {
            self.update_stake_error(d, v, now, amount, sub)
        }
    }

    /// Changing the stake by a coin does not panic.
    pub open spec fn change_ok(
        self,
        d: Seq<char>,
        v: Seq<char>,
        now: u64,
        denom: Seq<char>,
        amount: u128,
        sub: bool,
    ) -> bool {
        (denom == self.denom && amount != 0) ==> self.update_stake_ok(d, v, now, amount, sub)
    }

    /// The state after changing the stake of `d` with `v` by a coin: unchanged when the
    /// coin or the validator is refused, with the rewards of `v` updated when the stake
    /// itself is refused.
    pub open spec fn after_change(
        self,
        d: Seq<char>,
        v: Seq<char>,
        now: u64,
        denom: Seq<char>,
        amount: u128,
        sub: bool,
    ) -> StakingModel {
        match self.change_error(d, v, now, denom, amount, sub) {
            None => self.after_update(d, v, now, amount, sub),
            Some(StakingError::InsufficientStake) => self.after_rewards(v, now),
            Some(StakingError::Overflow) => self.after_rewards(v, now),
            Some(_) => self,
        }
    }
}

/// The result that matches an optional error.
pub open spec fn result_of(e: Option<StakingError>) -> Result<(), StakingError> {
    match e {
        Some(e) => Err(e),
        None => Ok(()),
    }
}

impl StakingState {
    // Asserts that the given coin has the proper denominator
    pub fn validate_denom(&self, amount: &Coin) -> (r: Result<(), StakingError>)
        ensures
            r is Ok <==> amount.denom@ == self.model().denom,
            r is Err ==> r == Err::<(), StakingError>(StakingError::WrongDenom),
    {
        if amount.denom == self.info.bonded_denom {
            Ok(())
        } else {
            Err(StakingError::WrongDenom)
        }
    }

    pub fn validate_nonzero(amount: &Coin) -> (r: Result<(), StakingError>)
        ensures
            r is Ok <==> amount.amount != 0,
            r is Err ==> r == Err::<(), StakingError>(StakingError::ZeroAmount),
    {
        if amount.amount == 0 {
            Err(StakingError::ZeroAmount)
        } else {
            Ok(())
        }
    }

    // Asserts that the given percentage is at most 100%
    pub fn validate_percentage(percentage: u128) -> (r: Result<(), StakingError>)
        ensures
            r is Ok <==> percentage <= DECIMAL_FRACTIONAL,
            r is Err ==> r == Err::<(), StakingError>(StakingError::InvalidPercentage),
    {
        if percentage <= DECIMAL_FRACTIONAL {
            Ok(())
        } else {
            Err(StakingError::InvalidPercentage)
        }
    }

    /// Adds a coin to the stake of `to_address` with `validator`.
    pub fn add_stake(
        &mut self,
        block_time: u64,
        to_address: &String,
        validator: &String,
        amount: &Coin,
    ) -> (r: Result<(), StakingError>)
        requires
            old(self).wf(),
            old(self).model().change_ok(
                to_address@,
                validator@,
                block_time,
                amount.denom@,
                amount.amount,
                false,
            ),
        ensures
            final(self).wf(),
            r == result_of(
                old(self).model().change_error(
                    to_address@,
                    validator@,
                    block_time,
                    amount.denom@,
                    amount.amount,
                    false,
                ),
            ),
            final(self).model() == old(self).model().after_change(
                to_address@,
                validator@,
                block_time,
                amount.denom@,
                amount.amount,
                false,
            ),
    {
        match self.validate_denom(amount) {
            Ok(()) => {},
            Err(e) => {
                return Err(e);
            },
        }
        match Self::validate_nonzero(amount) {
            Ok(()) => {},
            Err(e) => {
                return Err(e);
            },
        }
        self.update_stake(block_time, to_address, validator, amount.amount, false)
    }

    /// Removes a coin from the stake of `from_address` with `validator`.
    pub fn remove_stake(
        &mut self,
        block_time: u64,
        from_address: &String,
        validator: &String,
        amount: &Coin,
    ) -> (r: Result<(), StakingError>)
        requires
            old(self).wf(),
            old(self).model().change_ok(
                from_address@,
                validator@,
                block_time,
                amount.denom@,
                amount.amount,
                true,
            ),
        ensures
            final(self).wf(),
            r == result_of(
                old(self).model().change_error(
                    from_address@,
                    validator@,
                    block_time,
                    amount.denom@,
                    amount.amount,
                    true,
                ),
            ),
            final(self).model() == old(self).model().after_change(
                from_address@,
                validator@,
                block_time,
                amount.denom@,
                amount.amount,
                true,
            ),
    {
        match self.validate_denom(amount) {
            Ok(()) => {},
            Err(e) => {
                return Err(e);
            },
        }
        match Self::validate_nonzero(amount) {
            Ok(()) => {},
            Err(e) => {
                return Err(e);
            },
        }
        self.update_stake(block_time, from_address, validator, amount.amount, true)
    }
}

} // verus!

verus! {

impl StakingModel {
    /// The rewards of `d` at `v` as of `now`, as a decimal: what was credited so far plus
    /// its share of what the validator accrued since the last calculation.
    pub open spec fn delegator_rewards(self, d: Seq<char>, v: Seq<char>, now: u64) -> int {
        let sh = self.stakes[(d, v)];
        let vi = self.validator_info[v];
        sh.rewards + share_of(self.pending_rewards(v, now) as u128, sh.stake, vi.stake)
    }

    /// The rewards of `d` at `v` can be computed as of `now` without panicking.
    pub open spec fn rewards_query_ok(self, d: Seq<char>, v: Seq<char>, now: u64) -> bool {
        let sh = self.stakes[(d, v)];
        let vi = self.validator_info[v];
        (self.validators.contains_key(v) && self.stakes.contains_key((d, v))) ==> {
            &&& rewards_ok(
                now,
                vi.last_rewards_calculation,
                self.apr,
                self.validators[v].commission,
                vi.stake,
            )
            &&& share_ok(self.pending_rewards(v, now) as u128, sh.stake, vi.stake)
            &&& self.delegator_rewards(d, v, now) <= u128::MAX
        }
    }

    /// The number of unbondings at the front of the queue that are due at `now`.
    pub open spec fn due_count(queue: Seq<UnbondingView>, now: u64) -> nat
        decreases queue.len(),
    {
        if queue.len() == 0 || queue[0].payout_at > now {
            0
        } else {
            1 + Self::due_count(queue.drop_first(), now)
        }
    }
}

/// No more unbondings are due than the queue holds.
pub proof fn lemma_due_count_bound(queue: Seq<UnbondingView>, now: u64)
    ensures
        StakingModel::due_count(queue, now) <= queue.len(),
    decreases queue.len(),
{
    if queue.len() > 0 && queue[0].payout_at <= now {
        lemma_due_count_bound(queue.drop_first(), now);
    }
}

impl StakingState {
    /// Returns the rewards of the given delegator at the given validator
    pub fn get_rewards(&self, block_time: u64, delegator: &String, validator: &String) -> (r:
        Result<Option<Coin>, StakingError>)
        requires
            self.wf(),
            self.model().rewards_query_ok(delegator@, validator@, block_time),
        ensures
            r is Err <==> !self.model().validators.contains_key(validator@),
            r is Err ==> r == Err::<Option<Coin>, StakingError>(
                StakingError::NonExistentValidator,
            ),
            r matches Ok(o) ==> (o is Some <==> self.model().stakes.contains_key(
                (delegator@, validator@),
            )),
            r matches Ok(Some(c)) ==> c.denom@ == self.model().denom && c.amount
                == self.model().delegator_rewards(delegator@, validator@, block_time)
                / DECIMAL_FRACTIONAL as int,
    {
        proof {
            self.lemma_wf();
        }
        let validator_obj = match self.get_validator(validator) {
            Some(v) => v,
            None => {
                return Err(StakingError::NonExistentValidator);
            },
        };
        // calculate rewards using fixed ratio
        let key = (delegator.clone(), validator.clone());
        let shares = match self.stakes.get(&key) {
            Some(s) => *s,
            None => {
                return Ok(None);
            },
        };
        let vi = match self.validator_info.get(validator) {
            Some(vi) => copy_info(vi),
            None => {
                return Err(StakingError::NonExistentValidator);
            },
        };
        proof {
            assert(self.model().validator_info[validator@] == info_view(
                self.validator_info.view()[validator@],
            ));
        }
        // calculate missing rewards without updating the validator to reduce rounding errors
        let new_validator_rewards = calculate_rewards(
            block_time,
            vi.last_rewards_calculation,
            self.info.apr,
            validator_obj.commission,
            vi.stake,
        );
        // calculate the delegator's share of those
        let delegator_rewards = shares.rewards + shares.share_of_rewards(
            &vi,
            new_validator_rewards,
        );
        assert(1 * delegator_rewards / (DECIMAL_FRACTIONAL as int) <= u128::MAX) by (
        nonlinear_arith)
            requires
                delegator_rewards <= u128::MAX,
        ;
        let amount = uint_mul_decimal(1, delegator_rewards);
        Ok(Some(Coin { denom: self.info.bonded_denom.clone(), amount }))
    }

    /// Queues tokens to be paid out to a delegator.
    fn push_unbonding(&mut self, delegator: String, payout_at: u64, amount: u128)
        requires
            old(self).wf(),
        ensures
            final(self).wf(),
            final(self).model() == (StakingModel {
                unbonding_queue: old(self).model().unbonding_queue.push(
                    UnbondingView { delegator: delegator@, payout_at, amount },
                ),
                ..old(self).model()
            }),
    {
        let ghost dv = delegator@;
        self.unbonding_queue.push(Unbonding { delegator, payout_at, amount });
        assert(self.model().unbonding_queue =~= old(self).model().unbonding_queue.push(
            UnbondingView { delegator: dv, payout_at, amount },
        ));
        assert(self.model() =~= (StakingModel {
            unbonding_queue: old(self).model().unbonding_queue.push(
                UnbondingView { delegator: dv, payout_at, amount },
            ),
            ..old(self).model()
        }));
    }

    /// Removes the first unbonding of the queue if it is due at `now`.
    fn pop_due_unbonding(&mut self, now: u64) -> (r: Option<Unbonding>)
        requires
            old(self).wf(),
        ensures
            final(self).wf(),
            r is Some <==> old(self).model().unbonding_queue.len() > 0 && old(self).model().unbonding_queue[0].payout_at <= now,
            r matches Some(u) ==> unbonding_view(u) == old(self).model().unbonding_queue[0]
                && final(self).model() == (StakingModel {
                unbonding_queue: old(self).model().unbonding_queue.drop_first(),
                ..old(self).model()
            }),
            r is None ==> final(self).model() == old(self).model(),
    {
        // assuming the queue is sorted by payout_at
        if self.unbonding_queue.len() > 0 && self.unbonding_queue[0].payout_at <= now {
            let u = self.unbonding_queue.remove(0);
            assert(self.model().unbonding_queue =~= old(self).model().unbonding_queue.drop_first());
            assert(self.model() =~= (StakingModel {
                unbonding_queue: old(self).model().unbonding_queue.drop_first(),
                ..old(self).model()
            }));
            Some(u)
        } else {
            None
        }
    }
}

} // verus!

verus! {

/// A movement of native tokens that the bank module carries out for another module.
#[derive(Clone, Debug, PartialEq, Eq)]
pub enum BankAction {
    /// Tokens move from one account to another.
    Send { from: String, to: String, amount: Vec<Coin> },
    /// New tokens are created in an account.
    Mint { to: String, amount: Vec<Coin> },
}

/// What is known of a bank action.
pub enum BankActionView {
    Send { from: Seq<char>, to: Seq<char>, amount: Seq<(Seq<char>, u128)> },
    Mint { to: Seq<char>, amount: Seq<(Seq<char>, u128)> },
}

pub open spec fn action_view(a: BankAction) -> BankActionView {
    match a {
        BankAction::Send { from, to, amount } => BankActionView::Send {
            from: from@,
            to: to@,
            amount: coins_view(amount@),
        },
        BankAction::Mint { to, amount } => BankActionView::Mint {
            to: to@,
            amount: coins_view(amount@),
        },
    }
}

/// The messages the staking module executes for a sender.
#[derive(Clone, Debug, PartialEq, Eq)]
pub enum StakingMsg {
    Delegate { validator: String, amount: Coin },
    Undelegate { validator: String, amount: Coin },
    Redelegate { src_validator: String, dst_validator: String, amount: Coin },
}

/// What a staking or distribution message gives: the bank action to run next (if any)
/// and the events to report.
#[derive(Clone, Debug, PartialEq, Eq)]
pub struct StakingResponse {
    pub action: Option<BankAction>,
    pub events: Vec<Event>,
}

/// The events a successful staking message reports.
pub open spec fn staking_events(msg: StakingMsg) -> Seq<(Seq<char>, Seq<(Seq<char>, Seq<char>)>)> {
    match msg {
        StakingMsg::Delegate { validator, amount } => seq![
            ("delegate"@, seq![
                ("validator"@, validator@),
                ("amount"@, coin_text(coin_view(amount))),
                ("new_shares"@, decimal(amount.amount as nat)),
            ]),
        ],
        StakingMsg::Undelegate { validator, amount } => seq![
            ("unbond"@, seq![
                ("validator"@, validator@),
                ("amount"@, coin_text(coin_view(amount))),
                ("completion_time"@, "2022-09-27T14:00:00+00:00"@),
            ]),
        ],
        StakingMsg::Redelegate { src_validator, dst_validator, amount } => seq![
            ("redelegate"@, seq![
                ("source_validator"@, src_validator@),
                ("destination_validator"@, dst_validator@),
                ("amount"@, coin_text(coin_view(amount))),
            ]),
        ],
    }
}

/// The event a reward withdrawal reports.
pub open spec fn withdraw_events(
    validator: Seq<char>,
    sender: Seq<char>,
    reward: (Seq<char>, u128),
) -> Seq<(Seq<char>, Seq<(Seq<char>, Seq<char>)>)> {
    seq![
        ("withdraw_delegator_reward"@, seq![
            ("validator"@, validator),
            ("sender"@, sender),
            ("amount"@, coin_text(reward)),
        ]),
    ]
}

/// One event of three attributes.
fn event3(ty: &str, k1: &str, v1: String, k2: &str, v2: String, k3: &str, v3: String) -> (r: Vec<Event>)
    ensures
        events_view(r@) == seq![(ty@, seq![(k1@, v1@), (k2@, v2@), (k3@, v3@)])],
{
    let mut attrs: Vec<Attribute> = Vec::new();
    attrs.push(attr(k1, v1));
    attrs.push(attr(k2, v2));
    attrs.push(attr(k3, v3));
    let mut events: Vec<Event> = Vec::new();
    events.push(Event { ty: ty.to_owned(), attributes: attrs });
    proof {
        assert(attrs_view(events@[0].attributes@) =~= seq![(k1@, v1@), (k2@, v2@), (k3@, v3@)]);
        assert(events_view(events@) =~= seq![(ty@, seq![(k1@, v1@), (k2@, v2@), (k3@, v3@)])]);
    }
    events
}

/// The events of a successful staking message.
fn staking_msg_events(msg: &StakingMsg) -> (r: Vec<Event>)
    ensures
        events_view(r@) == staking_events(*msg),
{
    match msg {
        StakingMsg::Delegate { validator, amount } => {
            let mut shares = String::new();
            push_decimal(&mut shares, amount.amount);
            assert(shares@ =~= decimal(amount.amount as nat));
            event3(
                "delegate",
                "validator",
                validator.clone(),
                "amount",
                coin_to_string(amount),
                "new_shares",
                shares,
            )
        },
        StakingMsg::Undelegate { validator, amount } => event3(
            "unbond",
            "validator",
            validator.clone(),
            "amount",
            coin_to_string(amount),
            "completion_time",
            "2022-09-27T14:00:00+00:00".to_owned(),
        ),
        StakingMsg::Redelegate { src_validator, dst_validator, amount } => event3(
            "redelegate",
            "source_validator",
            src_validator.clone(),
            "destination_validator",
            dst_validator.clone(),
            "amount",
            coin_to_string(amount),
        ),
    }
}

// We need to expand on this, but we will need this to properly test out staking
#[derive(Clone, Debug, PartialEq, Eq)]
pub enum StakingSudo {
    /// Slashes the given percentage of the validator's stake.
    /// For now, you cannot slash retrospectively in tests.
    Slash { validator: String, percentage: u128 },
    /// Causes the unbonding queue to be processed.
    /// This needs to be triggered manually, since there is no good place to do this right now.
    /// In cosmos-sdk, this is done in `EndBlock`, but we don't have that here.
    ProcessQueue {},
}

/// The staking module's keeper. It holds the address of the module account, which holds
/// all staked tokens.
pub struct StakeKeeper {
    module_addr: String,
}

/// The address of the module account.
pub open spec fn staking_module_addr() -> Seq<char> {
    "staking_module"@
}

impl StakeKeeper {
    /// The account that holds the staked tokens.
    pub closed spec fn module_addr(&self) -> Seq<char> {
        self.module_addr@
    }

    pub fn new() -> (r: Self)
        ensures
            r.module_addr() == staking_module_addr(),
    {
        StakeKeeper {
            // The address of the staking module. This holds all staked tokens.
            module_addr: "staking_module".to_owned(),
        }
    }

    /// Staking can run `msg` from `sender` at `now` without panicking.
    pub open spec fn execute_ok(m: StakingModel, sender: Seq<char>, now: u64, msg: StakingMsg) -> bool {
        match msg {
            StakingMsg::Delegate { validator, amount } => m.change_ok(
                sender,
                validator@,
                now,
                amount.denom@,
                amount.amount,
                false,
            ),
            StakingMsg::Undelegate { validator, amount } => {
                &&& m.change_ok(sender, validator@, now, amount.denom@, amount.amount, true)
                &&& now + m.unbonding_time * 1_000_000_000 <= u64::MAX
            },
            StakingMsg::Redelegate { src_validator, dst_validator, amount } => {
                &&& m.change_ok(sender, src_validator@, now, amount.denom@, amount.amount, true)
                &&& m.change_error(
                    sender,
                    src_validator@,
                    now,
                    amount.denom@,
                    amount.amount,
                    true,
                ) is None ==> m.after_change(
                    sender,
                    src_validator@,
                    now,
                    amount.denom@,
                    amount.amount,
                    true,
                ).change_ok(sender, dst_validator@, now, amount.denom@, amount.amount, false)
            },
        }
    }

    pub fn execute(
        &self,
        state: &mut StakingState,
        block_time: u64,
        sender: &String,
        msg: StakingMsg,
        addresses_accepted: bool,
    ) -> (r: Result<StakingResponse, StakingError>)
        requires
            old(state).wf(),
            Self::execute_ok(old(state).model(), sender@, block_time, msg),
        ensures
            final(state).wf(),
            !addresses_accepted ==> r == Err::<StakingResponse, StakingError>(
                StakingError::InvalidAddress,
            ) && final(state).model() == old(state).model(),
            addresses_accepted ==> match msg {
                StakingMsg::Delegate { validator, amount } => {
                    let e = old(state).model().change_error(
                        sender@,
                        validator@,
                        block_time,
                        amount.denom@,
                        amount.amount,
                        false,
                    );
                    &&& final(state).model() == old(state).model().after_change(
                        sender@,
                        validator@,
                        block_time,
                        amount.denom@,
                        amount.amount,
                        false,
                    )
                    &&& (r is Ok <==> e is None)
                    &&& (e matches Some(err) ==> r == Err::<StakingResponse, StakingError>(
                        err,
                    ))
                    // move money from sender account to this module
                    &&& (r matches Ok(a) ==> a.action matches Some(act) && action_view(act)
                        == BankActionView::Send {
                        from: sender@,
                        to: self.module_addr(),
                        amount: seq![coin_view(amount)],
                    })
                },
                StakingMsg::Undelegate { validator, amount } => {
                    let e = old(state).model().change_error(
                        sender@,
                        validator@,
                        block_time,
                        amount.denom@,
                        amount.amount,
                        true,
                    );
                    let m1 = old(state).model().after_change(
                        sender@,
                        validator@,
                        block_time,
                        amount.denom@,
                        amount.amount,
                        true,
                    );
                    &&& (r is Ok <==> e is None)
                    &&& (e matches Some(err) ==> r == Err::<StakingResponse, StakingError>(
                        err,
                    ) && final(state).model() == m1)
                    // add tokens to unbonding queue
                    &&& (r is Ok ==> (r matches Ok(a) && a.action is None) && final(state).model() == (StakingModel {
                        unbonding_queue: m1.unbonding_queue.push(
                            UnbondingView {
                                delegator: sender@,
                                payout_at: (block_time + m1.unbonding_time
                                    * 1_000_000_000) as u64,
                                amount: amount.amount,
                            },
                        ),
                        ..m1
                    }))
                },
                StakingMsg::Redelegate { src_validator, dst_validator, amount } => {
                    let e1 = old(state).model().change_error(
                        sender@,
                        src_validator@,
                        block_time,
                        amount.denom@,
                        amount.amount,
                        true,
                    );
                    let m1 = old(state).model().after_change(
                        sender@,
                        src_validator@,
                        block_time,
                        amount.denom@,
                        amount.amount,
                        true,
                    );
                    let e2 = m1.change_error(
                        sender@,
                        dst_validator@,
                        block_time,
                        amount.denom@,
                        amount.amount,
                        false,
                    );
                    &&& (e1 matches Some(err) ==> r == Err::<StakingResponse, StakingError>(
                        err,
                    ) && final(state).model() == m1)
                    &&& (e1 is None ==> final(state).model() == m1.after_change(
                        sender@,
                        dst_validator@,
                        block_time,
                        amount.denom@,
                        amount.amount,
                        false,
                    ))
                    &&& (e1 is None && e2 is None ==> (r matches Ok(a) && a.action is None))
                    &&& (e1 is None ==> (e2 matches Some(err) ==> r == Err::<
                        StakingResponse,
                        StakingError,
                    >(err)))
                },
            },
            addresses_accepted ==> (r matches Ok(a) ==> events_view(a.events@) == staking_events(msg)),
    {
        // the validator addresses the message names must pass the chain's check first
        if !addresses_accepted {
            return Err(StakingError::InvalidAddress);
        }
        let events = staking_msg_events(&msg);
        match msg {
            StakingMsg::Delegate { validator, amount } => {
                match state.add_stake(block_time, sender, &validator, &amount) {
                    Ok(()) => {},
                    Err(e) => {
                        return Err(e);
                    },
                }
                let ghost cv = coin_view(amount);
                // move money from sender account to this module (note we can controller sender here)
                let mut coins: Vec<Coin> = Vec::new();
                coins.push(amount);
                assert(coins_view(coins@) =~= seq![cv]);
                Ok(
                    StakingResponse {
                        action: Some(
                            BankAction::Send {
                                from: sender.clone(),
                                to: self.module_addr.clone(),
                                amount: coins,
                            },
                        ),
                        events,
                    },
                )
            },
            StakingMsg::Undelegate { validator, amount } => {
                match state.validate_denom(&amount) {
                    Ok(()) => {},
                    Err(e) => {
                        return Err(e);
                    },
                }
                match StakingState::validate_nonzero(&amount) {
                    Ok(()) => {},
                    Err(e) => {
                        return Err(e);
                    },
                }
                match state.remove_stake(block_time, sender, &validator, &amount) {
                    Ok(()) => {},
                    Err(e) => {
                        return Err(e);
                    },
                }
                // add tokens to unbonding queue
                let staking_info = state.get_staking_info();
                let payout_at = block_time + staking_info.unbonding_time * 1_000_000_000;
                state.push_unbonding(sender.clone(), payout_at, amount.amount);
                Ok(StakingResponse { action: None, events })
            },
            StakingMsg::Redelegate { src_validator, dst_validator, amount } => {
                match state.remove_stake(block_time, sender, &src_validator, &amount) {
                    Ok(()) => {},
                    Err(e) => {
                        return Err(e);
                    },
                }
                match state.add_stake(block_time, sender, &dst_validator, &amount) {
                    Ok(()) => {},
                    Err(e) => {
                        return Err(e);
                    },
                }
                Ok(StakingResponse { action: None, events })
            },
        }
    }
}

} // verus!

verus! {

impl StakeKeeper {
    /// The payouts of the first `n` unbondings of a queue, sent from the module account.
    pub open spec fn payouts(
        self,
        queue: Seq<UnbondingView>,
        denom: Seq<char>,
        n: nat,
    ) -> Seq<BankActionView> {
        Seq::new(
            n,
            |i: int|
                BankActionView::Send {
                    from: self.module_addr(),
                    to: queue[i].delegator,
                    amount: seq![(denom, queue[i].amount)],
                },
        )
    }

    pub fn sudo(
        &self,
        state: &mut StakingState,
        block_time: u64,
        msg: StakingSudo,
        addresses_accepted: bool,
    ) -> (r: Result<Vec<BankAction>, StakingError>)
        requires
            old(state).wf(),
            msg matches StakingSudo::Slash { validator, percentage } ==> (percentage
                <= DECIMAL_FRACTIONAL ==> old(state).model().update_rewards_ok(
                validator@,
                block_time,
            )),
        ensures
            final(state).wf(),
            match msg {
                StakingSudo::Slash { validator, percentage } => {
                    &&& (!addresses_accepted ==> r == Err::<Vec<BankAction>, StakingError>(
                        StakingError::InvalidAddress,
                    ) && final(state).model() == old(state).model())
                    &&& addresses_accepted ==> {
                    &&& (percentage > DECIMAL_FRACTIONAL ==> r == Err::<
                        Vec<BankAction>,
                        StakingError,
                    >(StakingError::InvalidPercentage) && final(state).model() == old(state).model())
                    &&& (percentage <= DECIMAL_FRACTIONAL ==> {
                        &&& (r is Err <==> !old(state).model().validator_info.contains_key(
                            validator@,
                        ))
                        &&& (r matches Err(e) ==> e == StakingError::ValidatorNotFound && final(state).model() == old(state).model())
                        &&& (r matches Ok(a) ==> a@.len() == 0 && final(state).model() == old(state).model().after_slash(validator@, block_time, percentage))
                    })
                    }
                },
                StakingSudo::ProcessQueue {  } => {
                    let q = old(state).model().unbonding_queue;
                    let n = StakingModel::due_count(q, block_time);
                    &&& r is Ok
                    &&& final(state).model() == (StakingModel {
                        unbonding_queue: q.skip(n as int),
                        ..old(state).model()
                    })
                    &&& (r matches Ok(a) ==> a@.map_values(|x: BankAction| action_view(x))
                        == self.payouts(q, old(state).model().denom, n))
                },
            },
    {
        match msg {
            StakingSudo::Slash { validator, percentage } => {
                if !addresses_accepted {
                    return Err(StakingError::InvalidAddress);
                }
                match StakingState::validate_percentage(percentage) {
                    Ok(()) => {},
                    Err(e) => {
                        return Err(e);
                    },
                }
                match state.slash(block_time, &validator, percentage) {
                    Ok(()) => Ok(Vec::new()),
                    Err(e) => Err(e),
                }
            },
            StakingSudo::ProcessQueue {  } => {
                let ghost q = old(state).model().unbonding_queue;
                let ghost denom = old(state).model().denom;
                let ghost n = StakingModel::due_count(q, block_time);
                let mut actions: Vec<BankAction> = Vec::new();
                assert(q.skip(0) =~= q);
                proof {
                    lemma_due_count_bound(q, block_time);
                }
                assert(actions@.map_values(|x: BankAction| action_view(x)) =~= self.payouts(
                    q,
                    denom,
                    0,
                ));
                loop
                    invariant_except_break
                        state.wf(),
                        denom == old(state).model().denom,
                        q == old(state).model().unbonding_queue,
                        n == StakingModel::due_count(q, block_time),
                        actions@.len() <= n,
                        n <= q.len(),
                        state.model() == (StakingModel {
                            unbonding_queue: q.skip(actions@.len() as int),
                            ..old(state).model()
                        }),
                        StakingModel::due_count(q.skip(actions@.len() as int), block_time) + actions@.len()
                            == n,
                        actions@.map_values(|x: BankAction| action_view(x)) == self.payouts(
                            q,
                            denom,
                            actions@.len() as nat,
                        ),
                    ensures
                        state.wf(),
                        actions@.len() == n,
                        state.model() == (StakingModel {
                            unbonding_queue: q.skip(n as int),
                            ..old(state).model()
                        }),
                        actions@.map_values(|x: BankAction| action_view(x)) == self.payouts(
                            q,
                            denom,
                            n,
                        ),
                    decreases state.model().unbonding_queue.len(),
                {
                    let ghost k = actions@.len() as int;
                    let ghost rest = q.skip(k);
                    let ghost pre = state.model();
                    assert(pre.unbonding_queue == rest);
                    match state.pop_due_unbonding(block_time) {
                        Some(u) => {
                            assert(pre.denom == denom);
                            assert(state.model().denom == pre.denom);
                            assert(rest.len() > 0 && rest[0].payout_at <= block_time);
                            assert(unbonding_view(u) == rest[0]);
                            let staking_info = state.get_staking_info();
                            let mut coins: Vec<Coin> = Vec::new();
                            let ghost cv = (staking_info.bonded_denom@, u.amount);
                            coins.push(Coin { denom: staking_info.bonded_denom, amount: u.amount });
                            let ghost before = actions@;
                            let ghost av = BankActionView::Send {
                                from: self.module_addr(),
                                to: u.delegator@,
                                amount: seq![cv],
                            };
                            assert(staking_info.bonded_denom@ == denom);
                            actions.push(
                                BankAction::Send {
                                    from: self.module_addr.clone(),
                                    to: u.delegator,
                                    amount: coins,
                                },
                            );
                            proof {
                                assert(rest.drop_first() =~= q.skip(k + 1));
                                assert(coins_view(coins@) =~= seq![cv]);
                                assert(rest[0] == q[k]) by {
                                    assert(k < q.len());
                                }
                                assert(action_view(actions@[k]) == av);
                                assert(av == self.payouts(q, denom, (k + 1) as nat)[k]);
                                assert forall|i: int| 0 <= i < k implies #[trigger] actions@[i] == before[i] by {}
                                assert(actions@.map_values(|x: BankAction| action_view(x))
                                    =~= self.payouts(q, denom, (k + 1) as nat)) by {
                                    assert forall|i: int| 0 <= i < k implies action_view(actions@[i])
                                        == #[trigger] self.payouts(q, denom, (k + 1) as nat)[i] by {
                                        assert(before.map_values(|x: BankAction| action_view(x))[i]
                                            == self.payouts(q, denom, k as nat)[i]);
                                    }
                                }
                            }
                        },
                        None => {
                            proof {
                                assert(StakingModel::due_count(rest, block_time) == 0);
                            }
                            break;
                        },
                    }
                }
                Ok(actions)
            },
        }
    }
}

} // verus!

verus! {

/// The queries the staking module answers.
#[derive(Clone, Debug, PartialEq, Eq)]
pub enum StakingQuery {
    /// The denomination that can be bonded.
    BondedDenom {},
    /// All delegations of the delegator.
    AllDelegations { delegator: String },
    /// The delegation of a delegator with a validator, with its rewards.
    Delegation { delegator: String, validator: String },
    /// All validators.
    AllValidators {},
    /// The validator at the given address.
    Validator { address: String },
}

/// A delegator's stake with a validator.
#[derive(Clone, Debug, PartialEq, Eq)]
pub struct Delegation {
    pub delegator: String,
    pub validator: String,
    pub amount: Coin,
}

/// A delegator's stake with a validator and what can be done with it.
#[derive(Clone, Debug, PartialEq, Eq)]
pub struct FullDelegation {
    pub delegator: String,
    pub validator: String,
    pub amount: Coin,
    pub can_redelegate: Coin,
    pub accumulated_rewards: Vec<Coin>,
}

/// The answers to staking queries.
#[derive(Clone, Debug, PartialEq, Eq)]
pub enum StakingQueryResponse {
    BondedDenom { denom: String },
    AllDelegations { delegations: Vec<Delegation> },
    Delegation { delegation: Option<FullDelegation> },
    AllValidators { validators: Vec<Validator> },
    Validator { validator: Option<Validator> },
}

/// The view of a delegation: delegator, validator and amount.
pub open spec fn delegation_view(d: Delegation) -> (Seq<char>, Seq<char>, (Seq<char>, u128)) {
    (d.delegator@, d.validator@, coin_view(d.amount))
}

/// The delegations of `d` among the first `upto` validators, in the order the validators
/// were added: each with the stake rounded down to whole tokens.
pub open spec fn delegations_of(m: StakingModel, d: Seq<char>, upto: int) -> Seq<
    (Seq<char>, Seq<char>, (Seq<char>, u128)),
>
    decreases upto,
{
    if upto <= 0 {
        Seq::empty()
    } else {
        let prev = delegations_of(m, d, upto - 1);
        let v = m.validator_list[upto - 1].address;
        if m.stakes.contains_key((d, v)) {
            prev.push((d, v, (m.denom, m.stakes[(d, v)].stake / DECIMAL_FRACTIONAL)))
        } else {
            prev
        }
    }
}

impl StakeKeeper {
    pub fn query(
        &self,
        state: &StakingState,
        block_time: u64,
        request: StakingQuery,
        addresses_accepted: bool,
    ) -> (r: Result<StakingQueryResponse, StakingError>)
        requires
            state.wf(),
            request matches StakingQuery::Delegation { delegator, validator }
                ==> state.model().rewards_query_ok(delegator@, validator@, block_time),
        ensures
            match request {
                StakingQuery::BondedDenom {  } => r matches Ok(
                    StakingQueryResponse::BondedDenom { denom },
                ) && denom@ == state.model().denom,
                StakingQuery::AllDelegations { delegator } => (!addresses_accepted ==> r
                    == Err::<StakingQueryResponse, StakingError>(StakingError::InvalidAddress)) && (
                addresses_accepted ==> (r matches Ok(
                    StakingQueryResponse::AllDelegations { delegations },
                ) && delegations@.map_values(|x: Delegation| delegation_view(x)) == delegations_of(
                    state.model(),
                    delegator@,
                    state.model().validator_list.len() as int,
                ))),
                StakingQuery::Delegation { delegator, validator } => {
                    let m = state.model();
                    &&& (!m.validators.contains_key(validator@) ==> r == Err::<
                        StakingQueryResponse,
                        StakingError,
                    >(StakingError::NonExistentValidator))
                    &&& (m.validators.contains_key(validator@) && !addresses_accepted ==> r
                        == Err::<StakingQueryResponse, StakingError>(StakingError::InvalidAddress))
                    &&& addresses_accepted ==> {
                    &&& (r is Err <==> !m.validators.contains_key(validator@))
                    &&& (r matches Err(e) ==> e == StakingError::NonExistentValidator)
                    &&& (r matches Ok(resp) ==> resp matches StakingQueryResponse::Delegation {
                        delegation,
                    } && (delegation is Some <==> m.stakes.contains_key(
                        (delegator@, validator@),
                    )) && (delegation matches Some(fd) ==> {
                        let reward = m.delegator_rewards(delegator@, validator@, block_time)
                            / DECIMAL_FRACTIONAL as int;
                        &&& fd.delegator@ == delegator@
                        &&& fd.validator@ == validator@
                        &&& coin_view(fd.amount) == (
                            m.denom,
                            m.stakes[(delegator@, validator@)].stake / DECIMAL_FRACTIONAL,
                        )
                        &&& coin_view(fd.can_redelegate) == coin_view(fd.amount)
                        &&& coins_view(fd.accumulated_rewards@) == if reward == 0 {
                            Seq::empty()
                        } else {
                            seq![(m.denom, reward as u128)]
                        }
                    }))
                    }
                },
                StakingQuery::AllValidators {  } => r matches Ok(
                    StakingQueryResponse::AllValidators { validators },
                ) && validators@.map_values(|v: Validator| validator_view(v))
                    == state.model().validator_list,
                StakingQuery::Validator { address } => r matches Ok(
                    StakingQueryResponse::Validator { validator },
                ) && (validator is Some <==> state.model().validators.contains_key(address@)) && (
                validator matches Some(v) ==> validator_view(v) == state.model().validators[address@]),
            },
    {
        match request {
            StakingQuery::BondedDenom {  } => {
                let info = state.get_staking_info();
                Ok(StakingQueryResponse::BondedDenom { denom: info.bonded_denom })
            },
            StakingQuery::AllDelegations { delegator } => {
                if !addresses_accepted {
                    return Err(StakingError::InvalidAddress);
                }
                let validators = state.get_validators();
                let ghost m = state.model();
                let mut delegations: Vec<Delegation> = Vec::new();
                let mut i: usize = 0;
                while i < validators.len()
                    invariant
                        state.wf(),
                        m == state.model(),
                        i <= validators@.len(),
                        validators@.map_values(|v: Validator| validator_view(v)) == m.validator_list,
                        delegations@.map_values(|x: Delegation| delegation_view(x))
                            == delegations_of(m, delegator@, i as int),
                    decreases validators@.len() - i,
                {
                    let address = &validators[i].address;
                    proof {
                        assert(validator_view(validators@[i as int]) == m.validator_list[i as int]);
                    }
                    let ghost before = delegations@;
                    match state.get_stake(&delegator, address) {
                        Some(amount) => {
                            let ghost dv = (delegator@, address@, coin_view(amount));
                            delegations.push(
                                Delegation {
                                    delegator: delegator.clone(),
                                    validator: address.clone(),
                                    amount,
                                },
                            );
                            assert(delegations@.map_values(|x: Delegation| delegation_view(x))
                                =~= before.map_values(|x: Delegation| delegation_view(x)).push(dv));
                        },
                        None => {},
                    }
                    i = i + 1;
                }
                proof {
                    assert(m.validator_list.len() == validators@.len());
                }
                Ok(StakingQueryResponse::AllDelegations { delegations })
            },
            StakingQuery::Delegation { delegator, validator } => {
                // the validator is looked up before the delegator's address is checked
                if !addresses_accepted {
                    return match state.get_validator(&validator) {
                        Some(_) => Err(StakingError::InvalidAddress),
                        None => Err(StakingError::NonExistentValidator),
                    };
                }
                let ghost m = state.model();
                let reward = match state.get_rewards(block_time, &delegator, &validator) {
                    Ok(Some(reward)) => reward,
                    Ok(None) => {
                        return Ok(StakingQueryResponse::Delegation { delegation: None });
                    },
                    Err(e) => {
                        return Err(e);
                    },
                };
                let amount = match state.get_stake(&delegator, &validator) {
                    Some(a) => a,
                    None => {
                        return Ok(StakingQueryResponse::Delegation { delegation: None });
                    },
                };
                let can_redelegate = Coin { denom: amount.denom.clone(), amount: amount.amount };
                let mut accumulated_rewards: Vec<Coin> = Vec::new();
                if reward.amount != 0 {
                    let ghost rv = coin_view(reward);
                    accumulated_rewards.push(reward);
                    assert(coins_view(accumulated_rewards@) =~= seq![rv]);
                } else {
                    assert(coins_view(accumulated_rewards@) =~= Seq::empty());
                }
                Ok(
                    StakingQueryResponse::Delegation {
                        delegation: Some(
                            FullDelegation {
                                delegator,
                                validator,
                                amount,
                                can_redelegate,
                                accumulated_rewards,
                            },
                        ),
                    },
                )
            },
            StakingQuery::AllValidators {  } => {
                Ok(StakingQueryResponse::AllValidators { validators: state.get_validators() })
            },
            StakingQuery::Validator { address } => {
                Ok(StakingQueryResponse::Validator { validator: state.get_validator(&address) })
            },
        }
    }
}

} // verus!

verus! {

/// The messages of the distribution module.
#[derive(Clone, Debug, PartialEq, Eq)]
pub enum DistributionMsg {
    SetWithdrawAddress { address: String },
    WithdrawDelegatorReward { validator: String },
}

impl StakingModel {
    /// The state after the rewards of `d` with `v` were paid out at `now`: the rewards of
    /// `v` are updated first, then the delegator's rewards drop to zero.
    pub open spec fn after_withdraw(self, d: Seq<char>, v: Seq<char>, now: u64) -> StakingModel {
        let m1 = self.after_rewards(v, now);
        StakingModel {
            stakes: m1.stakes.insert((d, v), Shares { stake: m1.stakes[(d, v)].stake, rewards: 0 }),
            ..m1
        }
    }
}

impl StakingState {
    /// Sets the rewards of `d` with `v` to zero and returns what they were.
    fn take_rewards(&mut self, delegator: &String, validator: &String) -> (r: Option<u128>)
        requires
            old(self).wf(),
        ensures
            final(self).wf(),
            r is Some <==> old(self).model().stakes.contains_key((delegator@, validator@)),
            r matches Some(x) ==> x == old(self).model().stakes[(delegator@, validator@)].rewards
                && final(self).model() == (StakingModel {
                stakes: old(self).model().stakes.insert(
                    (delegator@, validator@),
                    Shares {
                        stake: old(self).model().stakes[(delegator@, validator@)].stake,
                        rewards: 0,
                    },
                ),
                ..old(self).model()
            }),
            r is None ==> final(self).model() == old(self).model(),
    {
        let key = (delegator.clone(), validator.clone());
        let shares = match self.stakes.get(&key) {
            Some(s) => *s,
            None => {
                return None;
            },
        };
        self.stakes.set(key, Shares { stake: shares.stake, rewards: 0 });
        proof {
            let sv = self.stakes.view();
            let iv = self.validator_info.view();
            assert(sv.dom() =~= old(self).stakes.view().dom());
            assert forall|x: Seq<char>, w: Seq<char>| #[trigger]
                sv.contains_key((x, w)) implies iv.contains_key(w) by {
                assert(old(self).stakes.view().contains_key((x, w)));
            }
            assert forall|x: Seq<char>, w: Seq<char>|
                #![trigger sv.contains_key((x, w)), iv[w]]
                iv.contains_key(w) implies (address_set(iv[w].stakers@).contains(x)
                    <==> sv.contains_key((x, w))) by {
                assert(sv.contains_key((x, w)) == old(self).stakes.view().contains_key((x, w)));
            }
            assert(self.model() =~= (StakingModel {
                stakes: old(self).model().stakes.insert(
                    (delegator@, validator@),
                    Shares {
                        stake: old(self).model().stakes[(delegator@, validator@)].stake,
                        rewards: 0,
                    },
                ),
                ..old(self).model()
            }));
        }
        Some(shares.rewards)
    }
}

/// The distribution module's keeper: it pays out staking rewards.
pub struct DistributionKeeper {}

impl DistributionKeeper {
    pub fn new() -> (r: Self) {
        DistributionKeeper {  }
    }

    /// Removes all rewards from the given (delegator, validator) pair and returns the amount,
    /// rounded down to whole tokens.
    pub fn remove_rewards(
        &self,
        state: &mut StakingState,
        block_time: u64,
        delegator: &String,
        validator: &String,
    ) -> (r: Result<u128, StakingError>)
        requires
            old(state).wf(),
            old(state).model().update_rewards_ok(validator@, block_time),
        ensures
            final(state).wf(),
            ({
                let m = old(state).model();
                let m1 = m.after_rewards(validator@, block_time);
                &&& !m.validator_info.contains_key(validator@) ==> r == Err::<u128, StakingError>(
                    StakingError::ValidatorNotFound,
                ) && final(state).model() == m
                &&& m.validator_info.contains_key(validator@) && !m1.stakes.contains_key(
                    (delegator@, validator@),
                ) ==> r == Err::<u128, StakingError>(StakingError::StakeNotFound) && final(state).model() == m1
                &&& m.validator_info.contains_key(validator@) && m1.stakes.contains_key(
                    (delegator@, validator@),
                ) ==> r == Ok::<u128, StakingError>(
                    (m1.stakes[(delegator@, validator@)].rewards / DECIMAL_FRACTIONAL) as u128,
                ) && final(state).model() == m.after_withdraw(delegator@, validator@, block_time)
            }),
    {
        // update the validator and staker rewards
        match state.update_rewards(block_time, validator) {
            Ok(()) => {},
            Err(e) => {
                return Err(e);
            },
        }
        // load updated rewards for delegator, and remove them
        match state.take_rewards(delegator, validator) {
            Some(rewards) => {
                // convert to Uint128
                assert(1 * rewards / (DECIMAL_FRACTIONAL as int) <= u128::MAX) by (nonlinear_arith)
                    requires
                        rewards <= u128::MAX,
                ;
                Ok(uint_mul_decimal(1, rewards))
            },
            None => Err(StakingError::StakeNotFound),
        }
    }

    /// Withdrawing a delegator's rewards mints them to the delegator in the bonded
    /// denomination, once the chain's check accepted the validator address
    /// (`addresses_accepted`).
    pub fn execute(
        &self,
        state: &mut StakingState,
        block_time: u64,
        sender: &String,
        msg: DistributionMsg,
        addresses_accepted: bool,
    ) -> (r: Result<StakingResponse, StakingError>)
        requires
            old(state).wf(),
            msg matches DistributionMsg::WithdrawDelegatorReward { validator }
                ==> old(state).model().update_rewards_ok(validator@, block_time),
        ensures
            final(state).wf(),
            match msg {
                DistributionMsg::WithdrawDelegatorReward { validator } => {
                    let m = old(state).model();
                    let m1 = m.after_rewards(validator@, block_time);
                    let ok = m.validator_info.contains_key(validator@) && m1.stakes.contains_key(
                        (sender@, validator@),
                    );
                    &&& (!addresses_accepted ==> r == Err::<StakingResponse, StakingError>(
                        StakingError::InvalidAddress,
                    ) && final(state).model() == m)
                    &&& addresses_accepted ==> {
                    &&& (r is Ok <==> ok)
                    &&& (!m.validator_info.contains_key(validator@) ==> r == Err::<
                        StakingResponse,
                        StakingError,
                    >(StakingError::ValidatorNotFound) && final(state).model() == m)
                    &&& (m.validator_info.contains_key(validator@) && !ok ==> r == Err::<
                        StakingResponse,
                        StakingError,
                    >(StakingError::StakeNotFound) && final(state).model() == m1)
                    &&& (ok ==> final(state).model() == m.after_withdraw(
                        sender@,
                        validator@,
                        block_time,
                    ))
                    // directly mint rewards to delegator
                    &&& (r matches Ok(a) ==> events_view(a.events@) == withdraw_events(
                        validator@,
                        sender@,
                        (m.denom, m.withdrawn(sender@, validator@, block_time)),
                    ))
                    &&& (r matches Ok(a) ==> a.action matches Some(act) && action_view(act) == BankActionView::Mint {
                        to: sender@,
                        amount: seq![(m.denom, m.withdrawn(sender@, validator@, block_time))],
                    })
                    }
                },
                _ => r == Err::<StakingResponse, StakingError>(StakingError::Unsupported) && final(state).model() == old(state).model(),
            },
    {
        match msg {
            DistributionMsg::WithdrawDelegatorReward { validator } => {
                if !addresses_accepted {
                    return Err(StakingError::InvalidAddress);
                }
                let rewards = match self.remove_rewards(state, block_time, sender, &validator) {
                    Ok(r) => r,
                    Err(e) => {
                        return Err(e);
                    },
                };
                let staking_info = state.get_staking_info();
                let ghost cv = (staking_info.bonded_denom@, rewards);
                let mut coins: Vec<Coin> = Vec::new();
                let reward = Coin { amount: rewards, denom: staking_info.bonded_denom };
                let events = event3(
                    "withdraw_delegator_reward",
                    "validator",
                    validator.clone(),
                    "sender",
                    sender.clone(),
                    "amount",
                    coin_to_string(&reward),
                );
                coins.push(reward);
                assert(coins_view(coins@) =~= seq![cv]);
                Ok(
                    StakingResponse {
                        action: Some(BankAction::Mint { to: sender.clone(), amount: coins }),
                        events,
                    },
                )
            },
            _ => Err(StakingError::Unsupported),
        }
    }
}

} // verus!

verus! {

/// Modules that handle staking messages.
pub trait Staking {}

/// Modules that handle distribution messages.
pub trait Distribution {}

impl Staking for StakeKeeper {}

impl Distribution for DistributionKeeper {}

impl StakeKeeper {
    /// Gives `account` a stake of `amount` with `validator` without moving any tokens.
    pub fn init_stake(
        &self,
        state: &mut StakingState,
        block_time: u64,
        account: &String,
        validator: &String,
        amount: &Coin,
    ) -> (r: Result<(), StakingError>)
        requires
            old(state).wf(),
            old(state).model().change_ok(
                account@,
                validator@,
                block_time,
                amount.denom@,
                amount.amount,
                false,
            ),
        ensures
            final(state).wf(),
            r == result_of(
                old(state).model().change_error(
                    account@,
                    validator@,
                    block_time,
                    amount.denom@,
                    amount.amount,
                    false,
                ),
            ),
            final(state).model() == old(state).model().after_change(
                account@,
                validator@,
                block_time,
                amount.denom@,
                amount.amount,
                false,
            ),
    {
        state.add_stake(block_time, account, validator, amount)
    }
}

/// Settling rewards moves only rewards: every stake, every staker set and every validator's
/// total stake stay as they were.
pub proof fn lemma_rewards_keep_stakes(m: StakingModel, v: Seq<char>, now: u64)
    ensures
        m.after_rewards(v, now).stakes.dom() == m.stakes.dom(),
        forall|k: (Seq<char>, Seq<char>)|
            #[trigger] m.after_rewards(v, now).stakes.contains_key(k) ==> m.after_rewards(
                v,
                now,
            ).stakes[k].stake == m.stakes[k].stake,
        m.after_rewards(v, now).validator_info.dom() == m.validator_info.dom(),
        forall|w: Seq<char>|
            #[trigger] m.after_rewards(v, now).validator_info.contains_key(w) ==> m.after_rewards(
                v,
                now,
            ).validator_info[w].stake == m.validator_info[w].stake,
        m.after_rewards(v, now).denom == m.denom,
{
    let m1 = m.after_rewards(v, now);
    if m.rewards_change(v, now) {
        assert(m1.stakes.dom() =~= m.stakes.dom());
        assert(m1.validator_info.dom() =~= m.validator_info.dom());
    }
}

/// Rewards only grow: settling a validator's rewards never lowers what any staker has
/// accrued.
pub proof fn lemma_rewards_never_decrease(m: StakingModel, v: Seq<char>, now: u64, d: Seq<char>)
    requires
        m.update_rewards_ok(v, now),
    ensures
        m.after_rewards(v, now).shares_of(d, v).rewards >= m.shares_of(d, v).rewards,
{
    let m1 = m.after_rewards(v, now);
    if m.rewards_change(v, now) && m.stakes.contains_key((d, v)) {
        let sh = m.stakes[(d, v)];
        let vs = m.validator_info[v].stake;
        let r = m.pending_rewards(v, now) as u128;
        assert(m.stakes.contains_key((d, v)));
        assert(r * sh.stake / (DECIMAL_FRACTIONAL as int) >= 0) by (nonlinear_arith);
        if vs > 0 {
            assert((r * sh.stake / (DECIMAL_FRACTIONAL as int)) / (vs as int) >= 0) by (nonlinear_arith)
                requires
                    r * sh.stake / (DECIMAL_FRACTIONAL as int) >= 0,
                    vs > 0,
            ;
        }
    }
}

/// Delegating tokens and undelegating the same tokens at the same time cannot fail on the
/// second step, and leaves the delegator's stake and the validator's total stake as they
/// were (the rewards due up to then are settled on the way).
pub proof fn lemma_delegate_undelegate_restores_stake(
    m: StakingModel,
    d: Seq<char>,
    v: Seq<char>,
    now: u64,
    amount: u128,
)
    requires
        amount != 0,
        m.update_stake_ok(d, v, now, amount, false),
        m.update_stake_error(d, v, now, amount, false) is None,
    ensures
        ({
            let m1 = m.after_update(d, v, now, amount, false);
            let m2 = m1.after_update(d, v, now, amount, true);
            &&& m1.update_stake_error(d, v, now, amount, true) is None
            &&& m2.shares_of(d, v).stake == m.after_rewards(v, now).shares_of(d, v).stake
            &&& m2.validator_info[v].stake == m.validator_info[v].stake
        }),
{
    let m0 = m.after_rewards(v, now);
    let m1 = m.after_update(d, v, now, amount, false);
    let m1r = m1.after_rewards(v, now);
    let m2 = m1.after_update(d, v, now, amount, true);
    lemma_rewards_keep_stakes(m, v, now);
    lemma_rewards_keep_stakes(m1, v, now);
    let sh0 = m0.shares_of(d, v);
    let n = sh0.stake + amount * (DECIMAL_FRACTIONAL as int);
    assert(m1.stakes.contains_key((d, v)));
    assert(m1.stakes[(d, v)].stake == n);
    assert(m1r.stakes.contains_key((d, v)));
    assert(m1r.shares_of(d, v).stake == n);
    assert(m1.validator_info.contains_key(v));
    assert(m1.validator_info[v].stake == m.validator_info[v].stake + amount);
    assert(m1r.validator_info[v].stake == m1.validator_info[v].stake);
}

/// Slashing never adds stake: after slashing up to 100%, the validator holds at most
/// what it held.
pub proof fn lemma_slash_never_increases_stake(
    m: StakingModel,
    v: Seq<char>,
    now: u64,
    percentage: u128,
)
    requires
        percentage <= DECIMAL_FRACTIONAL,
        m.validator_info.contains_key(v),
    ensures
        0 <= m.slashed_stake(v, now, percentage) <= m.validator_info[v].stake,
        m.after_slash(v, now, percentage).validator_info[v].stake <= m.validator_info[v].stake,
{
    lemma_rewards_keep_stakes(m, v, now);
    let s = m.after_rewards(v, now).validator_info[v].stake;
    let f = DECIMAL_FRACTIONAL as int;
    let q = (DECIMAL_FRACTIONAL - percentage) as int;
    assert(0 <= s * q / f <= s) by (nonlinear_arith)
        requires
            0 <= q <= f,
            f > 0,
            s >= 0,
    ;
}

/// A successful change of the stake of `d` with `v` moves that stake alone: it grows or
/// drops by the amount (as a decimal), the validator's total stake by the amount, and every
/// other stake and every other validator's total stay as they were.
proof fn lemma_update_moves_one_stake(
    m: StakingModel,
    d: Seq<char>,
    v: Seq<char>,
    now: u64,
    amount: u128,
    sub: bool,
)
    requires
        amount != 0,
        m.update_stake_ok(d, v, now, amount, sub),
        m.update_stake_error(d, v, now, amount, sub) is None,
    ensures
        ({
            let m2 = m.after_update(d, v, now, amount, sub);
            &&& m2.shares_of(d, v).stake == if sub {
                m.shares_of(d, v).stake - amount * (DECIMAL_FRACTIONAL as int)
            } else {
                m.shares_of(d, v).stake + amount * (DECIMAL_FRACTIONAL as int)
            }
            &&& forall|e: Seq<char>, w: Seq<char>|
                (e, w) != (d, v) ==> #[trigger] m2.shares_of(e, w).stake == m.shares_of(e, w).stake
            &&& m2.validator_info.contains_key(v)
            &&& m2.validator_info[v].stake == if sub {
                m.validator_info[v].stake - amount
            } else {
                m.validator_info[v].stake + amount
            }
            &&& forall|w: Seq<char>|
                w != v ==> (#[trigger] m2.validator_info.contains_key(w)
                    == m.validator_info.contains_key(w)) && (m.validator_info.contains_key(w)
                    ==> m2.validator_info[w].stake == m.validator_info[w].stake)
        }),
{
    let m1 = m.after_rewards(v, now);
    lemma_rewards_keep_stakes(m, v, now);
    assert forall|e: Seq<char>, w: Seq<char>| #[trigger] m1.shares_of(e, w).stake == m.shares_of(e, w).stake by {
        if m.stakes.contains_key((e, w)) {
            assert(m1.stakes.contains_key((e, w)));
        } else {
            assert(!m1.stakes.dom().contains((e, w)));
        }
    }
    assert forall|w: Seq<char>| m1.validator_info.contains_key(w) == m.validator_info.contains_key(w) by {
        assert(m1.validator_info.dom().contains(w) == m.validator_info.dom().contains(w));
    }
}

/// Redelegating moves stake without changing the total: when both steps succeed (between
/// two different validators), the delegator's stake with the source drops by the amount,
/// its stake with the destination grows by it, and its stake with every other validator
/// stays; the two validators' total stakes together stay as they were.
pub proof fn lemma_redelegate_keeps_total_stake(
    m: StakingModel,
    d: Seq<char>,
    src: Seq<char>,
    dst: Seq<char>,
    now: u64,
    denom: Seq<char>,
    amount: u128,
)
    requires
        src != dst,
        m.change_ok(d, src, now, denom, amount, true),
        m.after_change(d, src, now, denom, amount, true).change_ok(d, dst, now, denom, amount, false),
        m.change_error(d, src, now, denom, amount, true) is None,
        m.after_change(d, src, now, denom, amount, true).change_error(
            d,
            dst,
            now,
            denom,
            amount,
            false,
        ) is None,
    ensures
        ({
            let m1 = m.after_change(d, src, now, denom, amount, true);
            let m2 = m1.after_change(d, dst, now, denom, amount, false);
            &&& m2.shares_of(d, src).stake == m.shares_of(d, src).stake - amount * (
            DECIMAL_FRACTIONAL as int)
            &&& m2.shares_of(d, dst).stake == m.shares_of(d, dst).stake + amount * (
            DECIMAL_FRACTIONAL as int)
            &&& m2.shares_of(d, src).stake + m2.shares_of(d, dst).stake == m.shares_of(d, src).stake
                + m.shares_of(d, dst).stake
            &&& forall|w: Seq<char>|
                w != src && w != dst ==> #[trigger] m2.shares_of(d, w).stake == m.shares_of(
                    d,
                    w,
                ).stake
            &&& m2.validator_info[src].stake + m2.validator_info[dst].stake
                == m.validator_info[src].stake + m.validator_info[dst].stake
        }),
{
    let m1 = m.after_change(d, src, now, denom, amount, true);
    let m2 = m1.after_change(d, dst, now, denom, amount, false);
    lemma_update_moves_one_stake(m, d, src, now, amount, true);
    lemma_update_moves_one_stake(m1, d, dst, now, amount, false);
    assert(m1.shares_of(d, dst).stake == m.shares_of(d, dst).stake);
    assert(m2.shares_of(d, src).stake == m1.shares_of(d, src).stake);
    assert forall|w: Seq<char>| w != src && w != dst implies #[trigger] m2.shares_of(d, w).stake
        == m.shares_of(d, w).stake by {
        assert(m2.shares_of(d, w).stake == m1.shares_of(d, w).stake);
        assert(m1.shares_of(d, w).stake == m.shares_of(d, w).stake);
    }
}

impl StakingModel {
    /// What a withdrawal of the rewards of `d` with `v` at `now` mints: the rewards it has
    /// accrued by then, floored to whole tokens.
    pub open spec fn withdrawn(self, d: Seq<char>, v: Seq<char>, now: u64) -> u128 {
        (self.after_rewards(v, now).shares_of(d, v).rewards / DECIMAL_FRACTIONAL) as u128
    }
}

/// Withdrawing pays out what was earned: with a stake of `d` with `v`, the amount minted is
/// the delegator's accrued rewards as of `now` (what a rewards query answers then), floored
/// to whole tokens; afterwards its rewards are zero, so a query in the same block answers
/// nothing, and its stake is untouched (for a last calculation no later than `now`).
pub proof fn lemma_withdraw_pays_rewards(m: StakingModel, d: Seq<char>, v: Seq<char>, now: u64)
    requires
        m.validator_info.contains_key(v),
        m.stakes.contains_key((d, v)),
        m.validator_info[v].stake > 0,
        m.validator_info[v].last_rewards_calculation <= now,
        m.update_rewards_ok(v, now),
    ensures
        m.withdrawn(d, v, now) == m.delegator_rewards(d, v, now) / (DECIMAL_FRACTIONAL as int),
        m.after_withdraw(d, v, now).shares_of(d, v).rewards == 0,
        m.after_withdraw(d, v, now).delegator_rewards(d, v, now) == 0,
        m.after_withdraw(d, v, now).shares_of(d, v).stake == m.shares_of(d, v).stake,
{
    let m1 = m.after_rewards(v, now);
    let m2 = m.after_withdraw(d, v, now);
    let f = DECIMAL_FRACTIONAL as int;
    lemma_rewards_keep_stakes(m, v, now);
    assert(m1.stakes.contains_key((d, v)));
    let sh = m.stakes[(d, v)];
    let vs = m.validator_info[v].stake;
    let last = m.validator_info[v].last_rewards_calculation;
    let p = m.pending_rewards(v, now);
    if m.rewards_settle(v, now) && p != 0 {
        let pr = p as u128;
        assert(share_ok(pr, sh.stake, vs));
        assert(pr * sh.stake / f >= 0) by (nonlinear_arith)
            requires
                f > 0,
        ;
        assert((pr * sh.stake / f) / (vs as int) >= 0) by (nonlinear_arith)
            requires
                pr * sh.stake / f >= 0,
                vs > 0,
        ;
        assert(m1.stakes[(d, v)].rewards == sh.rewards + share_of(pr, sh.stake, vs));
    } else {
        if !m.rewards_settle(v, now) {
            assert(last == now);
            lemma_nothing_due_at_last(now, m.apr, m.validators[v].commission, vs);
        }
        assert(p == 0);
        lemma_no_share_of_nothing(sh.stake, vs);
    }
    // after the withdrawal, the validator's last calculation is `now`, so nothing is pending
    assert(m2.validator_info == m1.validator_info);
    let vs2 = m2.validator_info[v].stake;
    assert(m2.validator_info[v].last_rewards_calculation == now);
    lemma_nothing_due_at_last(now, m.apr, m.validators[v].commission, vs2);
    assert(m2.validators == m.validators);
    assert(m2.pending_rewards(v, now) == 0);
    assert(vs2 == vs);
    lemma_no_share_of_nothing(m2.stakes[(d, v)].stake, vs2);
}

/// Nothing is due for the time up to the last calculation itself.
proof fn lemma_nothing_due_at_last(now: u64, rate: u128, commission: u128, stake: u128)
    ensures
        rewards_due(now, now, rate, commission, stake) == 0,
{
    let f = DECIMAL_FRACTIONAL as int;
    let g = 1_000_000_000int;
    let q = now as int / g;
    assert(0 <= now - q * g < g) by (nonlinear_arith)
        requires
            q == now as int / g,
            g > 0,
            now >= 0,
    ;
    let t = elapsed_seconds(now, now);
    assert(t == (now - q * g) / g);
    assert(t == 0);
    let s = stake * f;
    let a = s * rate / f;
    assert(a * (t * f) / f == 0) by (nonlinear_arith)
        requires
            t == 0,
            f > 0,
    ;
    let b = a * (t * f) / f;
    assert(b * f / (31_536_000int * f) == 0) by (nonlinear_arith)
        requires
            b == 0,
            f > 0,
    ;
    let reward = b * f / (31_536_000int * f);
    assert(reward * commission / f == 0) by (nonlinear_arith)
        requires
            reward == 0,
            f > 0,
    ;
}

/// A share of no rewards is nothing.
proof fn lemma_no_share_of_nothing(stake: u128, validator_stake: u128)
    requires
        validator_stake > 0,
    ensures
        share_of(0, stake, validator_stake) == 0,
{
    let f = DECIMAL_FRACTIONAL as int;
    assert(0 * stake / f == 0) by (nonlinear_arith)
        requires
            f > 0,
    ;
    assert(0int / (validator_stake as int) == 0);
}

} // verus!
