//! A minimal bank module: balances of native tokens per account.
use crate::multitest::balance::{
    add_coins, add_coins_ok, balance_add, balance_normalize, balance_sub, find_denom,
    normalizes, sub_coins, total_of, CoinsView,
};
use crate::multitest::coin::{coin_view, coins_view, Coin};
use crate::multitest::table::Table;
use vstd::prelude::*;

verus! {

/// Why a bank operation failed.
#[derive(Clone, Copy, Debug, PartialEq, Eq, Structural)]
pub enum BankError {
    /// An account holds less of a denomination than it should give, or none of it.
    Overflow,
}

/// The messages the bank executes for a sender.
#[derive(Clone, Debug, PartialEq, Eq)]
pub enum BankMsg {
    Send { to_address: String, amount: Vec<Coin> },
    Burn { amount: Vec<Coin> },
}

/// The queries the bank answers.
#[derive(Clone, Debug, PartialEq, Eq)]
pub enum BankQuery {
    AllBalances { address: String },
    Balance { address: String, denom: String },
}

/// The answers to bank queries.
#[derive(Clone, Debug, PartialEq, Eq)]
pub enum BankResponse {
    AllBalances { amount: Vec<Coin> },
    Balance { amount: Coin },
}

/// The balances of all accounts.
pub struct BankState {
    balances: Table<String, Vec<Coin>>,
}

/// Every total of a denomination in the coins fits in a `u128`.
pub open spec fn totals_fit(b: CoinsView) -> bool {
    forall|d: Seq<char>| #[trigger] total_of(b, d) <= u128::MAX
}

impl BankState {
    /// The balance of each account that has one.
    pub closed spec fn balances(&self) -> Map<Seq<char>, CoinsView> {
        self.balances.view().map_values(|v: Vec<Coin>| coins_view(v@))
    }

    pub closed spec fn wf(&self) -> bool {
        self.balances.wf()
    }

    /// The balance of an account; an account never set holds nothing.
    pub open spec fn balance_of(&self, account: Seq<char>) -> CoinsView {
        if self.balances().contains_key(account) {
            self.balances()[account]
        } else {
            Seq::empty()
        }
    }

    pub fn new() -> (r: Self)
        ensures
            r.wf(),
            r.balances() == Map::<Seq<char>, CoinsView>::empty(),
    {
        let r = BankState { balances: Table::new() };
        assert(r.balances() =~= Map::<Seq<char>, CoinsView>::empty());
        r
    }
}

/// A copy of a list of coins.
pub fn copy_coins(v: &Vec<Coin>) -> (r: Vec<Coin>)
    ensures
        coins_view(r@) == coins_view(v@),
{
    let mut out: Vec<Coin> = Vec::new();
    let mut i: usize = 0;
    while i < v.len()
        invariant
            i <= v@.len(),
            coins_view(out@) == coins_view(v@.subrange(0, i as int)),
        decreases v@.len() - i,
    {
        let ci = &v[i];
        let d = ci.denom.clone();
        assert(d@ == ci.denom@);
        let c = Coin { denom: d, amount: ci.amount };
        let ghost before = out@;
        out.push(c);
        assert(coins_view(out@) =~= coins_view(v@.subrange(0, i + 1))) by {
            assert(out@ == before.push(c));
            assert(coin_view(c) == coin_view(v@[i as int]));
            assert(coins_view(out@) =~= coins_view(before).push(coin_view(c)));
            assert(v@.subrange(0, i + 1) =~= v@.subrange(0, i as int).push(v@[i as int]));
            assert(coins_view(v@.subrange(0, i as int).push(v@[i as int])) =~= coins_view(
                v@.subrange(0, i as int),
            ).push(coin_view(v@[i as int])));
        }
        i = i + 1;
    }
    assert(v@.subrange(0, v@.len() as int) =~= v@);
    out
}

#[derive(Debug, Default)]
pub struct SimpleBank {}

impl SimpleBank {
    // this is an "admin" function to let us adjust bank accounts
    pub fn get_balance(&self, store: &BankState, account: &String) -> (r: Vec<Coin>)
        requires
            store.wf(),
        ensures
            coins_view(r@) == store.balance_of(account@),
    {
        match store.balances.get(account) {
            Some(v) => copy_coins(v),
            None => {
                let r: Vec<Coin> = Vec::new();
                assert(coins_view(r@) =~= Seq::empty());
                r
            },
        }
    }

    // this is an "admin" function to let us adjust bank accounts: the account holds the
    // normalized coins
    pub fn set_balance(&self, store: &mut BankState, account: &String, amount: Vec<Coin>)
        requires
            old(store).wf(),
            totals_fit(coins_view(amount@)),
        ensures
            final(store).wf(),
            final(store).balances().dom() == old(store).balances().dom().insert(account@),
            normalizes(final(store).balances()[account@], coins_view(amount@)),
            forall|a: Seq<char>|
                a != account@ ==> #[trigger] final(store).balance_of(a) == old(store).balance_of(
                    a,
                ),
    {
        let ghost av = coins_view(amount@);
        let balance = balance_normalize(amount);
        let ghost bv = coins_view(balance@);
        store.balances.set(account.clone(), balance);
        proof {
            assert(store.balances() =~= old(store).balances().insert(account@, bv));
        }
    }

    pub fn mint(&self, store: &mut BankState, to_address: &String, amount: Vec<Coin>)
        requires
            old(store).wf(),
            add_coins_ok(old(store).balance_of(to_address@), coins_view(amount@)),
            totals_fit(add_coins(old(store).balance_of(to_address@), coins_view(amount@))),
        ensures
            final(store).wf(),
            normalizes(
                final(store).balance_of(to_address@),
                add_coins(old(store).balance_of(to_address@), coins_view(amount@)),
            ),
            forall|a: Seq<char>|
                a != to_address@ ==> #[trigger] final(store).balance_of(a) == old(store).balance_of(a),
    {
        let b = self.get_balance(store, to_address);
        let b = balance_add(b, amount);
        self.set_balance(store, to_address, b);
    }

    pub fn burn(&self, store: &mut BankState, from_address: &String, amount: Vec<Coin>) -> (r:
        Result<(), BankError>)
        requires
            old(store).wf(),
            sub_coins(old(store).balance_of(from_address@), coins_view(amount@)) matches Some(
                b,
            ) ==> totals_fit(b),
        ensures
            final(store).wf(),
            r is Ok <==> sub_coins(old(store).balance_of(from_address@), coins_view(amount@))
                is Some,
            r is Err ==> final(store).balances() == old(store).balances(),
            r is Ok ==> normalizes(
                final(store).balance_of(from_address@),
                sub_coins(old(store).balance_of(from_address@), coins_view(amount@))->0,
            ),
            forall|a: Seq<char>|
                a != from_address@ ==> #[trigger] final(store).balance_of(a) == old(store).balance_of(a),
    {
        let a = self.get_balance(store, from_address);
        match balance_sub(a, amount) {
            Some(a) => {
                self.set_balance(store, from_address, a);
                Ok(())
            },
            None => Err(BankError::Overflow),
        }
    }
}

} // verus!

verus! {

/// Sending `amount` from `from` to `to` does not panic: what is left to the sender fits,
/// and adding to the recipient (after the sender's balance was normalized, when the two are
/// the same account) neither overflows nor exceeds a `u128` total.
pub open spec fn send_ok(store: BankState, from: Seq<char>, to: Seq<char>, amount: CoinsView) -> bool {
    &&& sub_coins(store.balance_of(from), amount) matches Some(b) ==> {
        &&& totals_fit(b)
        &&& from == to ==> forall|n: CoinsView| #[trigger]
            normalizes(n, b) ==> add_coins_ok(n, amount) && totals_fit(add_coins(n, amount))
    }
    &&& from != to ==> add_coins_ok(store.balance_of(to), amount) && totals_fit(
        add_coins(store.balance_of(to), amount),
    )
}

impl SimpleBank {
    pub fn send(
        &self,
        store: &mut BankState,
        from_address: &String,
        to_address: &String,
        amount: Vec<Coin>,
    ) -> (r: Result<(), BankError>)
        requires
            old(store).wf(),
            send_ok(*old(store), from_address@, to_address@, coins_view(amount@)),
        ensures
            final(store).wf(),
            ({
                let sub = sub_coins(old(store).balance_of(from_address@), coins_view(amount@));
                &&& (r is Ok <==> sub is Some)
                &&& (r is Err ==> final(store).balances() == old(store).balances())
                &&& (r is Ok && from_address@ != to_address@ ==> normalizes(
                    final(store).balance_of(from_address@),
                    sub->0,
                ) && normalizes(
                    final(store).balance_of(to_address@),
                    add_coins(old(store).balance_of(to_address@), coins_view(amount@)),
                ))
                &&& (r is Ok && from_address@ == to_address@ ==> exists|n: CoinsView|
                    normalizes(n, sub->0) && normalizes(
                        final(store).balance_of(to_address@),
                        add_coins(n, coins_view(amount@)),
                    ))
                &&& forall|a: Seq<char>|
                    a != from_address@ && a != to_address@ ==> #[trigger] final(store).balance_of(
                        a,
                    ) == old(store).balance_of(a)
            }),
    {
        let again = copy_coins(&amount);
        match self.burn(store, from_address, amount) {
            Ok(()) => {},
            Err(e) => {
                return Err(e);
            },
        }
        let ghost mid = *store;
        proof {
            if from_address@ == to_address@ {
                let n = mid.balance_of(to_address@);
                assert(normalizes(
                    n,
                    sub_coins(old(store).balance_of(from_address@), coins_view(again@))->0,
                ));
            }
        }
        self.mint(store, to_address, again);
        Ok(())
    }

    pub fn execute(&self, store: &mut BankState, sender: &String, msg: BankMsg) -> (r: Result<
        (),
        BankError,
    >)
        requires
            old(store).wf(),
            match msg {
                BankMsg::Send { to_address, amount } => send_ok(
                    *old(store),
                    sender@,
                    to_address@,
                    coins_view(amount@),
                ),
                BankMsg::Burn { amount } => sub_coins(
                    old(store).balance_of(sender@),
                    coins_view(amount@),
                ) matches Some(b) ==> totals_fit(b),
            },
        ensures
            final(store).wf(),
            match msg {
                BankMsg::Send { to_address, amount } => {
                    let sub = sub_coins(old(store).balance_of(sender@), coins_view(amount@));
                    &&& (r is Ok <==> sub is Some)
                    &&& (r is Err ==> final(store).balances() == old(store).balances())
                    &&& (r is Ok && sender@ != to_address@ ==> normalizes(
                        final(store).balance_of(sender@),
                        sub->0,
                    ) && normalizes(
                        final(store).balance_of(to_address@),
                        add_coins(old(store).balance_of(to_address@), coins_view(amount@)),
                    ))
                    &&& (r is Ok && sender@ == to_address@ ==> exists|n: CoinsView|
                        normalizes(n, sub->0) && normalizes(
                            final(store).balance_of(to_address@),
                            add_coins(n, coins_view(amount@)),
                        ))
                    &&& forall|a: Seq<char>|
                        a != sender@ && a != to_address@ ==> #[trigger] final(store).balance_of(
                            a,
                        ) == old(store).balance_of(a)
                },
                BankMsg::Burn { amount } => {
                    let sub = sub_coins(old(store).balance_of(sender@), coins_view(amount@));
                    &&& (r is Ok <==> sub is Some)
                    &&& (r is Err ==> final(store).balances() == old(store).balances())
                    &&& (r is Ok ==> normalizes(final(store).balance_of(sender@), sub->0))
                    &&& forall|a: Seq<char>|
                        a != sender@ ==> #[trigger] final(store).balance_of(a) == old(store).balance_of(a)
                },
            },
    {
        match msg {
            BankMsg::Send { to_address, amount } => self.send(store, sender, &to_address, amount),
            BankMsg::Burn { amount } => self.burn(store, sender, amount),
        }
    }

    /// The coin of `denom` in a balance, or zero of it.
    fn find_coin(coins: Vec<Coin>, denom: String) -> (r: Coin)
        ensures
            find_denom(coins_view(coins@), denom@) >= 0 ==> coin_view(r) == coins_view(
                coins@,
            )[find_denom(coins_view(coins@), denom@)],
            find_denom(coins_view(coins@), denom@) < 0 ==> coin_view(r) == (denom@, 0u128),
    {
        let ghost cv = coins_view(coins@);
        let mut i: usize = 0;
        while i < coins.len()
            invariant
                i <= coins@.len(),
                cv == coins_view(coins@),
                forall|j: int| 0 <= j < i ==> #[trigger] cv[j].0 != denom@,
            decreases coins@.len() - i,
        {
            if coins[i].denom == denom {
                proof {
                    lemma_find_denom_first(cv, denom@, i as int);
                }
                let d = coins[i].denom.clone();
                return Coin { denom: d, amount: coins[i].amount };
            }
            i = i + 1;
        }
        proof {
            lemma_find_denom_absent(cv, denom@);
        }
        Coin { denom, amount: 0 }
    }

    pub fn query(&self, store: &BankState, request: BankQuery) -> (r: BankResponse)
        requires
            store.wf(),
        ensures
            match request {
                BankQuery::AllBalances { address } => r matches BankResponse::AllBalances {
                    amount,
                } && coins_view(amount@) == store.balance_of(address@),
                BankQuery::Balance { address, denom } => r matches BankResponse::Balance {
                    amount,
                } && (find_denom(store.balance_of(address@), denom@) >= 0 ==> coin_view(amount)
                    == store.balance_of(address@)[find_denom(store.balance_of(address@), denom@)])
                    && (find_denom(store.balance_of(address@), denom@) < 0 ==> coin_view(amount)
                    == (denom@, 0u128)),
            },
    {
        match request {
            BankQuery::AllBalances { address } => {
                let amount = self.get_balance(store, &address);
                BankResponse::AllBalances { amount }
            },
            BankQuery::Balance { address, denom } => {
                let all_amounts = self.get_balance(store, &address);
                let amount = Self::find_coin(all_amounts, denom);
                BankResponse::Balance { amount }
            },
        }
    }
}

/// The first coin of a denomination is at the first position that holds it.
proof fn lemma_find_denom_first(b: CoinsView, d: Seq<char>, i: int)
    requires
        0 <= i < b.len(),
        b[i].0 == d,
        forall|j: int| 0 <= j < i ==> #[trigger] b[j].0 != d,
    ensures
        find_denom(b, d) == i,
    decreases i,
{
    if i > 0 {
        assert forall|j: int| 0 <= j < i - 1 implies #[trigger] b.drop_first()[j].0 != d by {
            assert(b.drop_first()[j] == b[j + 1]);
        }
        lemma_find_denom_first(b.drop_first(), d, i - 1);
    }
}

/// A denomination that no coin holds is not found.
proof fn lemma_find_denom_absent(b: CoinsView, d: Seq<char>)
    requires
        forall|j: int| 0 <= j < b.len() ==> #[trigger] b[j].0 != d,
    ensures
        find_denom(b, d) < 0,
    decreases b.len(),
{
    if b.len() > 0 {
        assert forall|j: int| 0 <= j < b.len() - 1 implies #[trigger] b.drop_first()[j].0 != d by {
            assert(b.drop_first()[j] == b[j + 1]);
        }
        lemma_find_denom_absent(b.drop_first(), d);
    }
}

} // verus!
