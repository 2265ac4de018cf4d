//! Lists of coins as `cw0::NativeBalance` keeps them.
//!
//! A balance is a list of (denomination, amount) pairs. Denominations are compared as
//! strings are: by their UTF-8 bytes, which orders them as their characters' code points.
use crate::multitest::coin::{coins_view, Coin};
use cosmwasm_std::{coin, Coin as CwCoin};
use cw0::NativeBalance;
use vstd::prelude::*;

verus! {

/// The view of a balance.
pub type CoinsView = Seq<(Seq<char>, u128)>;

/// `a` comes before `b` in the order of strings: a proper prefix, or smaller at the first
/// character where they differ.
pub open spec fn denom_lt(a: Seq<char>, b: Seq<char>) -> bool {
    ||| (a.len() < b.len() && b.subrange(0, a.len() as int) == a)
    ||| exists|i: int|
        0 <= i < a.len() && i < b.len() && (a[i] as u32) < (b[i] as u32) && a.subrange(0, i)
            == b.subrange(0, i)
}

/// The position of the first coin of denomination `d`, or -1.
pub open spec fn find_denom(b: CoinsView, d: Seq<char>) -> int
    decreases b.len(),
{
    if b.len() == 0 {
        -1
    } else if b[0].0 == d {
        0
    } else {
        let i = find_denom(b.drop_first(), d);
        if i < 0 {
            -1
        } else {
            i + 1
        }
    }
}

/// The position of the first coin whose denomination does not come before `d`, or the
/// length of the balance.
pub open spec fn insert_pos(b: CoinsView, d: Seq<char>) -> int
    decreases b.len(),
{
    if b.len() == 0 || !denom_lt(b[0].0, d) {
        0
    } else {
        1 + insert_pos(b.drop_first(), d)
    }
}

/// Adding one coin: the amount of its denomination grows, or the coin is inserted before
/// the first coin whose denomination does not come before its own.
pub open spec fn add_coin(b: CoinsView, c: (Seq<char>, u128)) -> CoinsView {
    let i = find_denom(b, c.0);
    if i >= 0 {
        b.update(i, (c.0, (b[i].1 + c.1) as u128))
    } else {
        b.insert(insert_pos(b, c.0), c)
    }
}

/// Adding one coin does not overflow.
pub open spec fn add_coin_ok(b: CoinsView, c: (Seq<char>, u128)) -> bool {
    let i = find_denom(b, c.0);
    i >= 0 ==> b[i].1 + c.1 <= u128::MAX
}

/// Adding coins one after the other.
pub open spec fn add_coins(b: CoinsView, cs: CoinsView) -> CoinsView
    decreases cs.len(),
{
    if cs.len() == 0 {
        b
    } else {
        add_coins(add_coin(b, cs[0]), cs.drop_first())
    }
}

/// None of the additions overflows.
pub open spec fn add_coins_ok(b: CoinsView, cs: CoinsView) -> bool
    decreases cs.len(),
{
    cs.len() == 0 || (add_coin_ok(b, cs[0]) && add_coins_ok(add_coin(b, cs[0]), cs.drop_first()))
}

/// Subtracting one coin: fails when its denomination is missing or short; a denomination
/// left at zero is removed.
pub open spec fn sub_coin(b: CoinsView, c: (Seq<char>, u128)) -> Option<CoinsView> {
    let i = find_denom(b, c.0);
    if i < 0 || b[i].1 < c.1 {
        None
    } else if b[i].1 == c.1 {
        Some(b.remove(i))
    } else {
        Some(b.update(i, (b[i].0, (b[i].1 - c.1) as u128)))
    }
}

/// Subtracting coins one after the other; fails as soon as one subtraction fails.
pub open spec fn sub_coins(b: CoinsView, cs: CoinsView) -> Option<CoinsView>
    decreases cs.len(),
{
    if cs.len() == 0 {
        Some(b)
    } else {
        match sub_coin(b, cs[0]) {
            Some(b1) => sub_coins(b1, cs.drop_first()),
            None => None,
        }
    }
}

/// The total amount of denomination `d` in a list of coins.
pub open spec fn total_of(b: CoinsView, d: Seq<char>) -> int
    decreases b.len(),
{
    if b.len() == 0 {
        0
    } else {
        (if b[0].0 == d {
            b[0].1 as int
        } else {
            0
        }) + total_of(b.drop_first(), d)
    }
}

/// A normalized balance: sorted by denomination with no denomination twice, and no coin
/// of zero amount.
pub open spec fn is_normalized(b: CoinsView) -> bool {
    &&& forall|i: int, j: int| 0 <= i < j < b.len() ==> denom_lt(#[trigger] b[i].0, #[trigger] b[j].0)
    &&& forall|i: int| 0 <= i < b.len() ==> #[trigger] b[i].1 > 0
}

/// `n` is the normalization of `b`: normalized, and holding for each denomination the
/// total that `b` holds of it.
pub open spec fn normalizes(n: CoinsView, b: CoinsView) -> bool {
    &&& is_normalized(n)
    &&& forall|d: Seq<char>|
        #![trigger total_of(b, d)]
        (total_of(b, d) > 0 <==> find_denom(n, d) >= 0)
    &&& forall|i: int| 0 <= i < n.len() ==> #[trigger] n[i].1 == total_of(b, n[i].0)
}

/// `NativeBalance + NativeBalance` (cw0): each coin of `amount` is added in turn with
/// `+= Coin`, which adds to the first coin of the same denomination or inserts the coin
/// before the first coin whose denomination is not smaller. It panics when an amount
/// overflows, which `requires` rules out.
#[verifier::external_body]
pub(crate) fn balance_add(balance: Vec<Coin>, amount: Vec<Coin>) -> (r: Vec<Coin>)
    requires
        add_coins_ok(coins_view(balance@), coins_view(amount@)),
    ensures
        coins_view(r@) == add_coins(coins_view(balance@), coins_view(amount@)),
{
    let b: Vec<CwCoin> = balance.into_iter().map(|c| coin(c.amount, c.denom)).collect();
    let a: Vec<CwCoin> = amount.into_iter().map(|c| coin(c.amount, c.denom)).collect();
    let sum = NativeBalance(b) + NativeBalance(a);
    sum.into_vec().into_iter().map(|c| Coin { denom: c.denom, amount: c.amount.u128() }).collect()
}

/// `NativeBalance - Vec<Coin>` (cw0): each coin is subtracted in turn; it fails when the
/// denomination is missing or holds less, and a denomination left at zero is removed.
#[verifier::external_body]
pub(crate) fn balance_sub(balance: Vec<Coin>, amount: Vec<Coin>) -> (r: Option<Vec<Coin>>)
    ensures
        r is Some <==> sub_coins(coins_view(balance@), coins_view(amount@)) is Some,
        r matches Some(v) ==> Some(coins_view(v@)) == sub_coins(
            coins_view(balance@),
            coins_view(amount@),
        ),
{
    let b: Vec<CwCoin> = balance.into_iter().map(|c| coin(c.amount, c.denom)).collect();
    let a: Vec<CwCoin> = amount.into_iter().map(|c| coin(c.amount, c.denom)).collect();
    match NativeBalance(b) - a {
        Ok(d) => Some(
            d.into_vec().into_iter().map(|c| Coin { denom: c.denom, amount: c.amount.u128() }).collect(),
        ),
        Err(_) => None,
    }
}

/// `NativeBalance::normalize` (cw0): drops the zero coins, sorts by denomination and merges
/// the coins of one denomination into one with their total. The merge panics when a
/// total overflows, which `requires` rules out.
#[verifier::external_body]
pub(crate) fn balance_normalize(balance: Vec<Coin>) -> (r: Vec<Coin>)
    requires
        forall|d: Seq<char>| #[trigger] total_of(coins_view(balance@), d) <= u128::MAX,
    ensures
        normalizes(coins_view(r@), coins_view(balance@)),
{
    let b: Vec<CwCoin> = balance.into_iter().map(|c| coin(c.amount, c.denom)).collect();
    let mut n = NativeBalance(b);
    n.normalize();
    n.into_vec().into_iter().map(|c| Coin { denom: c.denom, amount: c.amount.u128() }).collect()
}

/// What `find_denom` answers: the first position of the denomination, or -1 when no coin
/// holds it.
pub proof fn lemma_find_denom_spec(b: CoinsView, d: Seq<char>)
    ensures
        find_denom(b, d) >= 0 ==> find_denom(b, d) < b.len() && b[find_denom(b, d)].0 == d
            && forall|j: int| 0 <= j < find_denom(b, d) ==> #[trigger] b[j].0 != d,
        find_denom(b, d) < 0 ==> find_denom(b, d) == -1 && forall|j: int|
            0 <= j < b.len() ==> #[trigger] b[j].0 != d,
    decreases b.len(),
{
    if b.len() > 0 {
        let t = b.drop_first();
        lemma_find_denom_spec(t, d);
        assert forall|j: int| 0 <= j < t.len() implies #[trigger] t[j] == b[j + 1] by {}
        if b[0].0 != d {
            if find_denom(t, d) >= 0 {
                assert forall|j: int| 0 <= j < find_denom(b, d) implies #[trigger] b[j].0 != d by {
                    if j > 0 {
                        assert(b[j] == t[j - 1]);
                    }
                }
            } else {
                assert forall|j: int| 0 <= j < b.len() implies #[trigger] b[j].0 != d by {
                    if j > 0 {
                        assert(b[j] == t[j - 1]);
                    }
                }
            }
        }
    }
}

/// The totals of two lists of coins put together are the sums of their totals.
pub proof fn lemma_total_concat(s1: CoinsView, s2: CoinsView, d: Seq<char>)
    ensures
        total_of(s1 + s2, d) == total_of(s1, d) + total_of(s2, d),
    decreases s1.len(),
{
    if s1.len() > 0 {
        assert((s1 + s2).drop_first() =~= s1.drop_first() + s2);
        assert((s1 + s2)[0] == s1[0]);
        lemma_total_concat(s1.drop_first(), s2, d);
    } else {
        assert(s1 + s2 =~= s2);
    }
}

/// The total of one coin.
pub proof fn lemma_total_one(c: (Seq<char>, u128), d: Seq<char>)
    ensures
        total_of(seq![c], d) == if c.0 == d {
            c.1 as int
        } else {
            0
        },
{
    let e = Seq::<(Seq<char>, u128)>::empty();
    assert(seq![c].drop_first() =~= e);
    assert(total_of(e, d) == 0);
    assert(seq![c][0] == c);
}

/// Coins of other denominations hold nothing of `d`.
pub proof fn lemma_total_absent(b: CoinsView, d: Seq<char>)
    requires
        forall|j: int| 0 <= j < b.len() ==> #[trigger] b[j].0 != d,
    ensures
        total_of(b, d) == 0,
    decreases b.len(),
{
    if b.len() > 0 {
        let t = b.drop_first();
        assert forall|j: int| 0 <= j < t.len() implies #[trigger] t[j].0 != d by {
            assert(t[j] == b[j + 1]);
        }
        lemma_total_absent(t, d);
    }
}

/// No total is negative.
pub proof fn lemma_total_nonneg(b: CoinsView, d: Seq<char>)
    ensures
        total_of(b, d) >= 0,
    decreases b.len(),
{
    if b.len() > 0 {
        lemma_total_nonneg(b.drop_first(), d);
    }
}

/// Splitting a list of coins around a position.
proof fn lemma_total_around(b: CoinsView, i: int, d: Seq<char>)
    requires
        0 <= i < b.len(),
    ensures
        total_of(b, d) == total_of(b.subrange(0, i), d) + (if b[i].0 == d {
            b[i].1 as int
        } else {
            0
        }) + total_of(b.subrange(i + 1, b.len() as int), d),
{
    let l = b.subrange(0, i);
    let r = b.subrange(i + 1, b.len() as int);
    assert(b =~= l + seq![b[i]] + r);
    lemma_total_concat(l + seq![b[i]], r, d);
    lemma_total_concat(l, seq![b[i]], d);
    lemma_total_one(b[i], d);
}

/// A normalized balance holds each denomination at most once, so its totals are its
/// amounts; the normalization of a list of coins therefore holds of each denomination
/// exactly the total the list holds.
pub proof fn lemma_normalizes_totals(n: CoinsView, b: CoinsView, d: Seq<char>)
    requires
        normalizes(n, b),
    ensures
        total_of(n, d) == total_of(b, d),
{
    lemma_find_denom_spec(n, d);
    lemma_total_nonneg(b, d);
    let i = find_denom(n, d);
    if i >= 0 {
        assert forall|j: int| 0 <= j < n.len() && j != i implies #[trigger] n[j].0 != d by {
            if n[j].0 == d {
                if j < i {
                    assert(denom_lt(n[j].0, n[i].0));
                } else {
                    assert(denom_lt(n[i].0, n[j].0));
                }
                assert(!(d.len() < d.len()));
                assert(!exists|k: int|
                    0 <= k < d.len() && k < d.len() && (d[k] as u32) < (d[k] as u32) && d.subrange(0, k)
                        == d.subrange(0, k));
            }
        }
        lemma_total_around(n, i, d);
        let l = n.subrange(0, i);
        let r = n.subrange(i + 1, n.len() as int);
        assert forall|j: int| 0 <= j < l.len() implies #[trigger] l[j].0 != d by {
            assert(l[j] == n[j]);
        }
        assert forall|j: int| 0 <= j < r.len() implies #[trigger] r[j].0 != d by {
            assert(r[j] == n[j + i + 1]);
        }
        lemma_total_absent(l, d);
        lemma_total_absent(r, d);
        assert(n[i].1 == total_of(b, n[i].0));
    } else {
        lemma_total_absent(n, d);
    }
}

/// Where a coin is inserted lies within the balance.
proof fn lemma_insert_pos_range(b: CoinsView, d: Seq<char>)
    ensures
        0 <= insert_pos(b, d) <= b.len(),
    decreases b.len(),
{
    if b.len() > 0 && denom_lt(b[0].0, d) {
        lemma_insert_pos_range(b.drop_first(), d);
    }
}

/// Adding a coin (without overflow) adds its amount to the total of its denomination and
/// leaves every other total as it was.
pub proof fn lemma_add_coin_totals(b: CoinsView, c: (Seq<char>, u128), d: Seq<char>)
    requires
        add_coin_ok(b, c),
    ensures
        total_of(add_coin(b, c), d) == total_of(b, d) + if c.0 == d {
            c.1 as int
        } else {
            0
        },
{
    lemma_find_denom_spec(b, c.0);
    let i = find_denom(b, c.0);
    if i >= 0 {
        let nb = b.update(i, (c.0, (b[i].1 + c.1) as u128));
        lemma_total_around(b, i, d);
        lemma_total_around(nb, i, d);
        assert(nb.subrange(0, i) =~= b.subrange(0, i));
        assert(nb.subrange(i + 1, nb.len() as int) =~= b.subrange(i + 1, b.len() as int));
    } else {
        let p = insert_pos(b, c.0);
        lemma_insert_pos_range(b, c.0);
        let nb = b.insert(p, c);
        assert(nb =~= b.subrange(0, p) + seq![c] + b.subrange(p, b.len() as int));
        assert(b =~= b.subrange(0, p) + b.subrange(p, b.len() as int));
        lemma_total_concat(b.subrange(0, p) + seq![c], b.subrange(p, b.len() as int), d);
        lemma_total_concat(b.subrange(0, p), seq![c], d);
        lemma_total_concat(b.subrange(0, p), b.subrange(p, b.len() as int), d);
        lemma_total_one(c, d);
    }
}

/// Taking a coin away (when the balance holds enough of it) takes its amount from the
/// total of its denomination and leaves every other total as it was.
pub proof fn lemma_sub_coin_totals(b: CoinsView, c: (Seq<char>, u128), d: Seq<char>)
    requires
        sub_coin(b, c) is Some,
    ensures
        total_of(sub_coin(b, c)->0, d) == total_of(b, d) - if c.0 == d {
            c.1 as int
        } else {
            0
        },
{
    lemma_find_denom_spec(b, c.0);
    let i = find_denom(b, c.0);
    let nb = sub_coin(b, c)->0;
    lemma_total_around(b, i, d);
    if b[i].1 == c.1 {
        assert(nb =~= b.subrange(0, i) + b.subrange(i + 1, b.len() as int));
        lemma_total_concat(b.subrange(0, i), b.subrange(i + 1, b.len() as int), d);
    } else {
        lemma_total_around(nb, i, d);
        assert(nb.subrange(0, i) =~= b.subrange(0, i));
        assert(nb.subrange(i + 1, nb.len() as int) =~= b.subrange(i + 1, b.len() as int));
    }
}

} // verus!
