//! A chain-specific module for Terra: market swaps between native denominations, and the
//! tax that the treasury takes on sent coins.
//!
//! The exchange rates and the treasury's rate and caps are answered by queriers outside
//! this module; their answers are handed to these functions.
use crate::multitest::balance::{add_coin, add_coin_ok, add_coins, add_coins_ok, balance_add, balance_sub, lemma_add_coin_totals, lemma_normalizes_totals, lemma_sub_coin_totals, normalizes, sub_coin, sub_coins, total_of, CoinsView};
use crate::multitest::bank::{totals_fit, BankState, SimpleBank};
use crate::multitest::coin::{coin_view, coins_view, Coin};
use crate::multitest::decimal::{uint_mul_decimal, DECIMAL_FRACTIONAL};
use crate::multitest::wasm::{
    attrs_view, decimal, events_view, push_decimal, AppResponse, Attribute, Event,
};
use vstd::prelude::*;
use vstd::string::StringExecFns;

verus! {

/// The module a Terra message or query is routed to.
#[derive(Clone, Copy, Debug, PartialEq, Eq, Structural)]
pub enum TerraRoute {
    Market,
    Treasury,
    Oracle,
    Wasm,
}

/// The messages of the market module.
#[derive(Clone, Debug, PartialEq, Eq)]
pub enum TerraMsg {
    /// Swap the offered coin into the ask denomination for the sender.
    Swap { offer_coin: Coin, ask_denom: String },
    /// Swap and send the result to another account.
    SwapSend { offer_coin: Coin, ask_denom: String, to_address: String },
}

/// A Terra message with the module it is routed to.
#[derive(Clone, Debug, PartialEq, Eq)]
pub struct TerraMsgWrapper {
    pub route: TerraRoute,
    pub msg_data: TerraMsg,
}

/// Why a swap failed.
#[derive(Clone, Copy, Debug, PartialEq, Eq, Structural)]
pub enum TerraError {
    /// The offered coin is already of the ask denomination.
    RecursiveSwap,
    /// The sender holds less of the offered denomination than it offers, or none of it.
    InsufficientFunds,
    /// The chain refused the recipient's address.
    InvalidAddress,
}

/// The Terra module of a test chain.
pub struct TerraMock {}

/// The text of a coin: its amount in decimal followed by its denomination.
pub open spec fn coin_text(c: (Seq<char>, u128)) -> Seq<char> {
    decimal(c.1 as nat) + c.0
}

/// What the trader receives of a quoted coin: one unit less, as a little spread.
pub open spec fn received(quote: (Seq<char>, u128)) -> (Seq<char>, u128) {
    (quote.0, if quote.1 > 0 {
        (quote.1 - 1) as u128
    } else {
        0
    })
}

/// The events of a swap: the swap itself, then the module that handled the message.
pub open spec fn swap_events(
    offer: (Seq<char>, u128),
    ask_denom: Seq<char>,
    trader: Seq<char>,
    recipient: Seq<char>,
    receive: (Seq<char>, u128),
) -> Seq<(Seq<char>, Seq<(Seq<char>, Seq<char>)>)> {
    seq![
        ("swap"@, seq![
            ("offer"@, coin_text(offer)),
            ("trader"@, trader),
            ("recipient"@, recipient),
            ("swap_coin"@, coin_text(receive)),
            ("swap_fee"@, coin_text((ask_denom, 1u128))),
        ]),
        ("message"@, seq![("module"@, "market"@)]),
    ]
}

/// A swap can be booked without a total overflowing: what the sender keeps and what the
/// recipient then holds fit.
pub open spec fn swap_fits(
    store: BankState,
    sender: Seq<char>,
    offer: (Seq<char>, u128),
    to_address: Option<Seq<char>>,
    quote: (Seq<char>, u128),
) -> bool {
    let left = sub_coin(store.balance_of(sender), offer);
    let recv = received(quote);
    left is Some ==> match to_address {
        Some(r) => {
            &&& add_coin_ok(store.balance_of(r), recv)
            &&& totals_fit(add_coin(store.balance_of(r), recv))
            &&& totals_fit(left->0)
        },
        None => add_coin_ok(left->0, recv) && totals_fit(add_coin(left->0, recv)),
    }
}

/// The tax on one coin: the amount times the rate, rounded down, but no more than the cap.
pub open spec fn coin_tax(amount: u128, rate: u128, cap: u128) -> u128 {
    let t = amount * rate / (DECIMAL_FRACTIONAL as int);
    if t < cap {
        t as u128
    } else {
        cap
    }
}

/// The tax on a coin is the smaller of its share at the rate and the cap: never more than
/// the amount times the rate (a decimal fraction, rounded down), never more than the cap,
/// and one of the two.
pub proof fn lemma_tax_is_capped_share(amount: u128, rate: u128, cap: u128)
    ensures
        coin_tax(amount, rate, cap) <= amount * rate / 1_000_000_000_000_000_000int,
        coin_tax(amount, rate, cap) <= cap,
        coin_tax(amount, rate, cap) == amount * rate / 1_000_000_000_000_000_000int
            || coin_tax(amount, rate, cap) == cap,
{
    assert(amount * rate >= 0) by (nonlinear_arith);
}

/// The text of a coin.
pub(crate) fn coin_to_string(c: &Coin) -> (r: String)
    ensures
        r@ == coin_text(coin_view(*c)),
{
    let mut s = String::new();
    push_decimal(&mut s, c.amount);
    s.append(c.denom.as_str());
    s
}

/// An attribute with the given key and value.
pub(crate) fn attr(key: &str, value: String) -> (r: Attribute)
    ensures
        r.key@ == key@,
        r.value@ == value@,
{
    Attribute { key: key.to_owned(), value }
}

impl TerraMock {
    pub fn new() -> (r: Self) {
        TerraMock {}
    }

    /// The coins of a message that the treasury taxes: the offered coin of a swap that
    /// sends its result on.
    pub fn get_taxable_coins(&self, msg: &TerraMsgWrapper) -> (r: Vec<Coin>)
        ensures
            coins_view(r@) == match (msg.route, msg.msg_data) {
                (TerraRoute::Market, TerraMsg::SwapSend { offer_coin, .. }) => seq![
                    coin_view(offer_coin),
                ],
                _ => Seq::empty(),
            },
    {
        let mut r: Vec<Coin> = Vec::new();
        match msg.route {
            TerraRoute::Market => match &msg.msg_data {
                TerraMsg::SwapSend { offer_coin, .. } => {
                    r.push(Coin { denom: offer_coin.denom.clone(), amount: offer_coin.amount });
                },
                _ => {},
            },
            _ => {},
        }
        assert(coins_view(r@) =~= match (msg.route, msg.msg_data) {
            (TerraRoute::Market, TerraMsg::SwapSend { offer_coin, .. }) => seq![
                coin_view(offer_coin),
            ],
            _ => Seq::empty(),
        });
        r
    }

    /// The taxes on the coins, given the treasury's tax rate (a decimal in units of
    /// 10^-18) and its cap for the denomination of each coin: nothing when the rate is
    /// zero, else for each coin its amount times the rate, rounded down and capped.
    pub fn calculate_taxes(&self, coins: &[Coin], tax_rate: u128, tax_caps: &[u128]) -> (r: Vec<
        Coin,
    >)
        requires
            tax_rate != 0 ==> tax_caps@.len() == coins@.len(),
            forall|i: int|
                0 <= i < coins@.len() ==> #[trigger] coins@[i].amount * tax_rate / (
                DECIMAL_FRACTIONAL as int) <= u128::MAX,
        ensures
            tax_rate == 0 ==> r@.len() == 0,
            tax_rate != 0 ==> r@.len() == coins@.len(),
            tax_rate != 0 ==> forall|i: int|
                0 <= i < coins@.len() ==> {
                    &&& (#[trigger] r@[i]).denom@ == coins@[i].denom@
                    &&& r@[i].amount == coin_tax(coins@[i].amount, tax_rate, tax_caps@[i])
                },
    {
        let mut result: Vec<Coin> = Vec::new();
        if tax_rate != 0 {
            let mut i: usize = 0;
            while i < coins.len()
                invariant
                    i <= coins@.len(),
                    tax_rate != 0,
                    tax_caps@.len() == coins@.len(),
                    result@.len() == i,
                    forall|j: int|
                        0 <= j < coins@.len() ==> #[trigger] coins@[j].amount * tax_rate / (
                        DECIMAL_FRACTIONAL as int) <= u128::MAX,
                    forall|j: int|
                        0 <= j < i ==> {
                            &&& (#[trigger] result@[j]).denom@ == coins@[j].denom@
                            &&& result@[j].amount == coin_tax(
                                coins@[j].amount,
                                tax_rate,
                                tax_caps@[j],
                            )
                        },
                decreases coins@.len() - i,
            {
                let c = &coins[i];
                assert(c.amount * tax_rate / (DECIMAL_FRACTIONAL as int) <= u128::MAX);
                let t = uint_mul_decimal(c.amount, tax_rate);
                let cap = tax_caps[i];
                let amount = if t < cap {
                    t
                } else {
                    cap
                };
                result.push(Coin { denom: c.denom.clone(), amount });
                i = i + 1;
            }
        }
        result
    }

    /// Swaps the offered coin of the sender into the ask denomination, given the market's
    /// quote for the offer. The trader receives the quote less one unit; it is credited to
    /// the recipient when there is one (whose address must have passed the chain's check,
    /// `recipient_accepted`), else to the sender. The sender's balance is then set to what it had less the offer (so a
    /// recipient that is the sender itself ends up without the received coin).
    pub fn swap(
        &self,
        bank: &SimpleBank,
        store: &mut BankState,
        sender: &String,
        offer_coin: Coin,
        ask_denom: String,
        to_address: Option<String>,
        quote: Coin,
        recipient_accepted: bool,
    ) -> (r: Result<AppResponse, TerraError>)
        requires
            old(store).wf(),
            offer_coin.denom@ != ask_denom@ && (to_address is None || recipient_accepted)
                ==> swap_fits(
                *old(store),
                sender@,
                coin_view(offer_coin),
                match to_address {
                    Some(t) => Some(t@),
                    None => None,
                },
                coin_view(quote),
            ),
        ensures
            final(store).wf(),
            swap_result(
                *old(store),
                *final(store),
                sender@,
                coin_view(offer_coin),
                ask_denom@,
                match to_address {
                    Some(t) => Some(t@),
                    None => None,
                },
                coin_view(quote),
                recipient_accepted,
                r,
            ),
    {
        if offer_coin.denom == ask_denom {
            return Err(TerraError::RecursiveSwap);
        }
        let ghost sb = old(store).balance_of(sender@);
        let ghost ov = coin_view(offer_coin);
        let ghost qv = coin_view(quote);
        let offer_text = coin_to_string(&offer_coin);
        let all = bank.get_balance(store, sender);
        let mut offer: Vec<Coin> = Vec::new();
        offer.push(offer_coin);
        proof {
            assert(coins_view(offer@) =~= seq![ov]);
            reveal_with_fuel(sub_coins, 2);
            assert(seq![ov].drop_first() =~= Seq::<(Seq<char>, u128)>::empty());
        }
        let sender_balances = match balance_sub(all, offer) {
            Some(b) => b,
            None => {
                return Err(TerraError::InsufficientFunds);
            },
        };
        // a little spread
        let fee_amount: u128 = 1;
        let receive_amount = quote.amount.saturating_sub(fee_amount);
        let receive = Coin { denom: quote.denom, amount: receive_amount };
        assert(coin_view(receive) == received(qv));
        let receive_text = coin_to_string(&receive);
        let fee_coin = Coin { denom: ask_denom, amount: fee_amount };
        let fee_text = coin_to_string(&fee_coin);
        let mut recv: Vec<Coin> = Vec::new();
        recv.push(receive);
        proof {
            assert(coins_view(recv@) =~= seq![received(qv)]);
            reveal_with_fuel(add_coins, 2);
            reveal_with_fuel(add_coins_ok, 2);
            assert(seq![received(qv)].drop_first() =~= Seq::<(Seq<char>, u128)>::empty());
        }
        if to_address.is_some() && !recipient_accepted {
            return Err(TerraError::InvalidAddress);
        }
        let recipient = match to_address {
            Some(recipient) => {
                let rb = bank.get_balance(store, &recipient);
                let recipient_balances = balance_add(rb, recv);
                bank.set_balance(store, &recipient, recipient_balances);
                bank.set_balance(store, sender, sender_balances);
                recipient
            },
            None => {
                let sender_balances = balance_add(sender_balances, recv);
                bank.set_balance(store, sender, sender_balances);
                sender.clone()
            },
        };
        let mut swap_attrs: Vec<Attribute> = Vec::new();
        swap_attrs.push(attr("offer", offer_text));
        swap_attrs.push(attr("trader", sender.clone()));
        swap_attrs.push(attr("recipient", recipient));
        swap_attrs.push(attr("swap_coin", receive_text));
        swap_attrs.push(attr("swap_fee", fee_text));
        let mut message_attrs: Vec<Attribute> = Vec::new();
        message_attrs.push(attr("module", "market".to_owned()));
        let mut events: Vec<Event> = Vec::new();
        events.push(Event { ty: "swap".to_owned(), attributes: swap_attrs });
        events.push(Event { ty: "message".to_owned(), attributes: message_attrs });
        proof {
            assert(attrs_view(events@[0].attributes@) =~= swap_events(
                ov,
                fee_coin.denom@,
                sender@,
                recipient@,
                received(qv),
            )[0].1);
            assert(attrs_view(events@[1].attributes@) =~= swap_events(
                ov,
                fee_coin.denom@,
                sender@,
                recipient@,
                received(qv),
            )[1].1);
            assert(events_view(events@) =~= swap_events(
                ov,
                fee_coin.denom@,
                sender@,
                recipient@,
                received(qv),
            ));
        }
        Ok(AppResponse { events, data: None })
    }

    /// Executes a message routed to the market; other routes are refused by the caller.
    pub fn execute(
        &self,
        bank: &SimpleBank,
        store: &mut BankState,
        sender: &String,
        msg: TerraMsgWrapper,
        quote: Coin,
        recipient_accepted: bool,
    ) -> (r: Result<AppResponse, TerraError>)
        requires
            old(store).wf(),
            msg.route == TerraRoute::Market,
            match msg.msg_data {
                TerraMsg::Swap { offer_coin, ask_denom } => offer_coin.denom@ != ask_denom@
                    ==> swap_fits(*old(store), sender@, coin_view(offer_coin), None, coin_view(quote)),
                TerraMsg::SwapSend { offer_coin, ask_denom, to_address } => offer_coin.denom@
                    != ask_denom@ && recipient_accepted ==> swap_fits(
                    *old(store),
                    sender@,
                    coin_view(offer_coin),
                    Some(to_address@),
                    coin_view(quote),
                ),
            },
        ensures
            final(store).wf(),
            match msg.msg_data {
                TerraMsg::Swap { offer_coin, ask_denom } => swap_result(
                    *old(store),
                    *final(store),
                    sender@,
                    coin_view(offer_coin),
                    ask_denom@,
                    None,
                    coin_view(quote),
                    recipient_accepted,
                    r,
                ),
                TerraMsg::SwapSend { offer_coin, ask_denom, to_address } => swap_result(
                    *old(store),
                    *final(store),
                    sender@,
                    coin_view(offer_coin),
                    ask_denom@,
                    Some(to_address@),
                    coin_view(quote),
                    recipient_accepted,
                    r,
                ),
            },
    {
        match msg.msg_data {
            TerraMsg::Swap { offer_coin, ask_denom } => self.swap(
                bank,
                store,
                sender,
                offer_coin,
                ask_denom,
                None,
                quote,
                recipient_accepted,
            ),
            TerraMsg::SwapSend { offer_coin, ask_denom, to_address } => self.swap(
                bank,
                store,
                sender,
                offer_coin,
                ask_denom,
                Some(to_address),
                quote,
                recipient_accepted,
            ),
        }
    }
}

/// What a swap does, as `swap` states it: the refusals, the booked balances and the events.
pub open spec fn swap_result(
    before: BankState,
    after: BankState,
    sender: Seq<char>,
    offer: (Seq<char>, u128),
    ask_denom: Seq<char>,
    to_address: Option<Seq<char>>,
    quote: (Seq<char>, u128),
    recipient_accepted: bool,
    r: Result<AppResponse, TerraError>,
) -> bool {
    let left = sub_coin(before.balance_of(sender), offer);
    let recv = received(quote);
    let refused = to_address is Some && !recipient_accepted;
    &&& offer.0 == ask_denom ==> r == Err::<AppResponse, TerraError>(TerraError::RecursiveSwap)
    &&& offer.0 != ask_denom && left is None ==> r == Err::<AppResponse, TerraError>(
        TerraError::InsufficientFunds,
    )
    &&& offer.0 != ask_denom && left is Some && refused ==> r == Err::<AppResponse, TerraError>(
        TerraError::InvalidAddress,
    )
    &&& offer.0 != ask_denom && left is Some && !refused ==> r is Ok
    &&& r is Err ==> after.balances() == before.balances()
    &&& r matches Ok(resp) ==> {
        &&& offer.0 != ask_denom
        &&& left is Some
        &&& resp.data is None
        &&& events_view(resp.events@) == swap_events(
            offer,
            ask_denom,
            sender,
            match to_address {
                Some(t) => t,
                None => sender,
            },
            recv,
        )
        &&& match to_address {
            Some(t) => {
                &&& normalizes(after.balance_of(sender), left->0)
                &&& t != sender ==> normalizes(after.balance_of(t), add_coin(before.balance_of(t), recv))
                &&& forall|a: Seq<char>|
                    a != sender && a != t ==> #[trigger] after.balance_of(a) == before.balance_of(a)
            },
            None => {
                &&& normalizes(after.balance_of(sender), add_coin(left->0, recv))
                &&& forall|a: Seq<char>|
                    a != sender ==> #[trigger] after.balance_of(a) == before.balance_of(a)
            },
        }
    }
}

/// A swap sent to another account credits it: after a successful swap to a recipient other
/// than the sender, the recipient holds of the quoted denomination what it held before
/// plus the quoted amount less the one-unit spread, and of every other denomination what
/// it held before; whatever it held before is kept.
pub proof fn lemma_swap_credits_recipient(
    before: BankState,
    after: BankState,
    sender: Seq<char>,
    offer: (Seq<char>, u128),
    ask_denom: Seq<char>,
    recipient: Seq<char>,
    quote: (Seq<char>, u128),
    recipient_accepted: bool,
    r: Result<AppResponse, TerraError>,
)
    requires
        swap_fits(before, sender, offer, Some(recipient), quote),
        swap_result(before, after, sender, offer, ask_denom, Some(recipient), quote, recipient_accepted, r),
        r is Ok,
        recipient != sender,
    ensures
        forall|d: Seq<char>|
            #[trigger] total_of(after.balance_of(recipient), d) == total_of(
                before.balance_of(recipient),
                d,
            ) + if d == quote.0 && quote.1 > 0 {
                quote.1 - 1
            } else {
                0
            },
{
    let recv = received(quote);
    let b = before.balance_of(recipient);
    assert forall|d: Seq<char>|
        #[trigger] total_of(after.balance_of(recipient), d) == total_of(b, d) + if d == quote.0
            && quote.1 > 0 {
            quote.1 - 1
        } else {
            0
        } by {
        lemma_normalizes_totals(after.balance_of(recipient), add_coin(b, recv), d);
        lemma_add_coin_totals(b, recv, d);
    }
}

/// A swap takes the offer from the sender: after a successful swap, the sender holds of
/// the offered denomination what it held before less the offer (plus what it received,
/// when it is its own recipient and the quote is of that denomination), and of other
/// denominations what it held before, plus the received coin when it is the recipient.
pub proof fn lemma_swap_debits_sender(
    before: BankState,
    after: BankState,
    sender: Seq<char>,
    offer: (Seq<char>, u128),
    ask_denom: Seq<char>,
    to_address: Option<Seq<char>>,
    quote: (Seq<char>, u128),
    recipient_accepted: bool,
    r: Result<AppResponse, TerraError>,
)
    requires
        swap_fits(before, sender, offer, to_address, quote),
        swap_result(before, after, sender, offer, ask_denom, to_address, quote, recipient_accepted, r),
        r is Ok,
        to_address is None || to_address != Some(sender),
    ensures
        forall|d: Seq<char>|
            #[trigger] total_of(after.balance_of(sender), d) == total_of(before.balance_of(sender), d)
                - (if d == offer.0 {
                offer.1 as int
            } else {
                0
            }) + if to_address is None && d == quote.0 && quote.1 > 0 {
                quote.1 - 1
            } else {
                0
            },
{
    let recv = received(quote);
    let b = before.balance_of(sender);
    let left = sub_coin(b, offer);
    assert forall|d: Seq<char>|
        #[trigger] total_of(after.balance_of(sender), d) == total_of(b, d) - (if d == offer.0 {
            offer.1 as int
        } else {
            0
        }) + if to_address is None && d == quote.0 && quote.1 > 0 {
            quote.1 - 1
        } else {
            0
        } by {
        lemma_sub_coin_totals(b, offer, d);
        match to_address {
            Some(t) => {
                lemma_normalizes_totals(after.balance_of(sender), left->0, d);
            },
            None => {
                lemma_normalizes_totals(after.balance_of(sender), add_coin(left->0, recv), d);
                lemma_add_coin_totals(left->0, recv, d);
            },
        }
    }
}

} // verus!
