//! The collection sweep: coins that have left the play area are taken out
//! and their value is added to the winnings.

use crate::coins::{Coin, CoinCount};
use crate::Winnings;
use vstd::prelude::*;

verus! {

/// The depth, in whole units, under which a coin has left the play area.
pub const EXIT_DEPTH: i64 = -20;

/// A coin in the machine.
#[derive(Debug, Copy, Clone, PartialEq, Eq)]
pub struct LiveCoin {
    /// The name under which the caller knows the coin.
    pub id: u64,
    /// Where the coin is along the depth axis, rounded down to a whole unit.
    pub depth: i64,
    /// The coin itself.
    pub coin: Coin,
}

/// A coin has left once it is beyond the exit depth. Rounding its place down
/// keeps the comparison exact, the exit depth being a whole number.
pub open spec fn has_left(c: LiveCoin) -> bool {
    c.depth < EXIT_DEPTH
}

/// The coins of `coins` that have left, in their order.
pub open spec fn collected(coins: Seq<LiveCoin>) -> Seq<LiveCoin> {
    coins.filter(|c: LiveCoin| has_left(c))
}

/// The coins of `coins` that are still in play, in their order.
pub open spec fn remaining(coins: Seq<LiveCoin>) -> Seq<LiveCoin> {
    coins.filter(|c: LiveCoin| !has_left(c))
}

/// What `coins` are worth together, in cents.
pub open spec fn total_cents(coins: Seq<LiveCoin>) -> int
    decreases coins.len(),
{
    if coins.len() == 0 {
        0
    } else {
        total_cents(coins.drop_last()) + coins.last().coin.value.cents
    }
}

/// Whether every one of `coins` is worth an amount under `symbol`.
pub open spec fn all_under(coins: Seq<LiveCoin>, symbol: Option<char>) -> bool {
    forall|i: int| 0 <= i < coins.len() ==> (#[trigger] coins[i]).coin.value.symbol == symbol
}

/// When a sweep can be made: the count covers the coins that have left,
/// these are worth amounts in the currency of the winnings, and the new
/// total fits.
pub open spec fn sweepable(coins: Seq<LiveCoin>, winnings: Winnings, count: CoinCount) -> bool {
    &&& count.0 >= collected(coins).len()
    &&& all_under(collected(coins), winnings.0.symbol)
    &&& i64::MIN <= winnings.0.cents + total_cents(collected(coins)) <= i64::MAX
}

/// The sum of at most `n` amounts of cents lies within `n` times their range.
proof fn lemma_total_cents_bounds(coins: Seq<LiveCoin>)
    ensures
        -0x8000_0000_0000_0000 * coins.len() <= total_cents(coins) <= 0x7fff_ffff_ffff_ffff
            * coins.len(),
    decreases coins.len(),
{
    if coins.len() > 0 {
        lemma_total_cents_bounds(coins.drop_last());
    }
}

/// Splits `coins` into those that have left and those still in play, and
/// adds up what the former are worth.
fn sweep(coins: &Vec<LiveCoin>) -> (r: (Vec<LiveCoin>, Vec<LiveCoin>, i128))
    ensures
        r.0@ == collected(coins@),
        r.1@ == remaining(coins@),
        r.2 == total_cents(collected(coins@)),
{
    let ghost left = |c: LiveCoin| has_left(c);
    let ghost stays = |c: LiveCoin| !has_left(c);
    let mut gone: Vec<LiveCoin> = Vec::new();
    let mut kept: Vec<LiveCoin> = Vec::new();
    let mut sum: i128 = 0;
    let n: usize = coins.len();
    let mut i: usize = 0;
    while i < n
        invariant
            i <= n,
            n == coins@.len(),
            left == |c: LiveCoin| has_left(c),
            stays == |c: LiveCoin| !has_left(c),
            gone@ == coins@.take(i as int).filter(left),
            kept@ == coins@.take(i as int).filter(stays),
            gone@.len() <= i,
            sum == total_cents(gone@),
        decreases n - i,
    {
        let c = coins[i];
        proof {
            assert(coins@.take(i + 1) =~= coins@.take(i as int).push(c));
            coins@.take(i as int).lemma_filter_push(c, left);
            coins@.take(i as int).lemma_filter_push(c, stays);
            lemma_total_cents_bounds(gone@);
        }
        if c.depth < EXIT_DEPTH {
            assert(gone@.push(c).drop_last() =~= gone@);
            sum = sum + (c.coin.value.cents as i128);
            gone.push(c);
        } else {
            kept.push(c);
        }
        i = i + 1;
    }
    assert(coins@.take(n as int) =~= coins@);
    (gone, kept, sum)
}

/// Whether all of `coins` are worth amounts under `symbol`.
fn is_all_under(coins: &Vec<LiveCoin>, symbol: Option<char>) -> (b: bool)
    ensures
        b == all_under(coins@, symbol),
{
    let n: usize = coins.len();
    let mut i: usize = 0;
    while i < n
        invariant
            i <= n,
            n == coins@.len(),
            all_under(coins@.take(i as int), symbol),
        decreases n - i,
    {
        if !crate::money::same_symbol(coins[i].coin.value.symbol, symbol) {
            return false;
        }
        assert forall|j: int| 0 <= j < i + 1 implies (#[trigger] coins@.take(
            i + 1,
        )[j]).coin.value.symbol == symbol by {
            if j < i {
                assert(coins@.take(i as int)[j] == coins@[j]);
            }
        }
        i = i + 1;
    }
    assert(coins@.take(n as int) =~= coins@);
    true
}

/// Decides `sweepable`.
pub fn can_collect(coins: &Vec<LiveCoin>, winnings: &Winnings, count: &CoinCount) -> (ok: bool)
    ensures
        ok == sweepable(coins@, *winnings, *count),
{
    let (gone, _, sum) = sweep(coins);
    if count.0 < gone.len() {
        return false;
    }
    if !is_all_under(&gone, winnings.0.symbol) {
        return false;
    }
    proof {
        lemma_total_cents_bounds(gone@);
        gone@.lemma_filter_len(|c: LiveCoin| has_left(c));
    }
    let total: i128 = (winnings.0.cents as i128) + sum;
    -0x8000_0000_0000_0000 <= total && total <= 0x7fff_ffff_ffff_ffff
}

/// The collection sweep. Every coin that has left the play area is taken
/// out of `coins` and handed back, its value is added to the winnings, and
/// it is counted out. The coins still in play stay, in their order. A count
/// that was the number of coins before the sweep is so after it.
pub fn collect(coins: &mut Vec<LiveCoin>, winnings: &mut Winnings, count: &mut CoinCount) -> (gone:
    Vec<LiveCoin>)
    requires
        sweepable(old(coins)@, *old(winnings), *old(count)),
    ensures
        gone@ == collected(old(coins)@),
        final(coins)@ == remaining(old(coins)@),
        final(winnings).0.symbol == old(winnings).0.symbol,
        final(winnings).0.cents == old(winnings).0.cents + total_cents(gone@),
        final(count).0 == old(count).0 - gone@.len(),
        old(count).0 == old(coins)@.len() ==> final(count).0 == final(coins)@.len(),
{
    let (gone, kept, sum) = sweep(coins);
    proof {
        lemma_sweep_parts(coins@);
    }
    let total: i128 = (winnings.0.cents as i128) + sum;
    winnings.0.cents = total as i64;
    count.0 = count.0 - gone.len();
    *coins = kept;
    gone
}

/// A sweep parts the coins in two: each coin is either collected or still
/// in play.
pub proof fn lemma_sweep_parts(coins: Seq<LiveCoin>)
    ensures
        collected(coins).len() + remaining(coins).len() == coins.len(),
    decreases coins.len(),
{
    reveal(Seq::filter);
    if coins.len() > 0 {
        lemma_sweep_parts(coins.drop_last());
    }
}

/// No coin is collected twice: after a sweep nothing that has left is in
/// play, so a second sweep over the same coins collects nothing, keeps them
/// all and adds nothing to the winnings.
pub proof fn lemma_no_double_collect(coins: Seq<LiveCoin>)
    ensures
        collected(remaining(coins)) == Seq::<LiveCoin>::empty(),
        remaining(remaining(coins)) == remaining(coins),
        total_cents(collected(remaining(coins))) == 0,
    decreases coins.len(),
{
    let left = |c: LiveCoin| has_left(c);
    let stays = |c: LiveCoin| !has_left(c);
    reveal(Seq::filter);
    if coins.len() > 0 {
        let rest = coins.drop_last();
        lemma_no_double_collect(rest);
        if stays(coins.last()) {
            rest.filter(stays).lemma_filter_push(coins.last(), left);
            rest.filter(stays).lemma_filter_push(coins.last(), stays);
        }
    }
}

/// Coins of no negative worth never lower the winnings.
pub proof fn lemma_winnings_never_fall(coins: Seq<LiveCoin>)
    requires
        forall|i: int| 0 <= i < coins.len() ==> (#[trigger] coins[i]).coin.value.cents >= 0,
    ensures
        total_cents(collected(coins)) >= 0,
    decreases coins.len(),
{
    reveal(Seq::filter);
    if coins.len() > 0 {
        let rest = coins.drop_last();
        assert forall|i: int| 0 <= i < rest.len() implies (#[trigger] rest[i]).coin.value.cents
            >= 0 by {
            assert(rest[i] == coins[i]);
        }
        lemma_winnings_never_fall(rest);
        if has_left(coins.last()) {
            assert(collected(coins).drop_last() =~= collected(rest));
        }
    }
}

} // verus!
