use coin_drop::coins::{Coin, CoinCount};
use coin_drop::machine::{can_collect, collect, LiveCoin, EXIT_DEPTH};
use coin_drop::money::Money;
use coin_drop::Winnings;

fn coin(id: u64, depth: i64, literal: &str) -> LiveCoin {
    LiveCoin { id, depth, coin: Coin { value: Money::parse(literal).unwrap() } }
}

#[test]
fn three_coins_cross_in_sequence() {
    let mut winnings = Winnings::default();
    assert_eq!(winnings.0, Money::parse("$0.00").unwrap());
    let mut coins = vec![coin(1, 0, "$1.00"), coin(2, 0, "$0.25"), coin(3, 0, "$2.50")];
    let mut count = CoinCount(3);
    let totals = ["$1.00", "$1.25", "$3.75"];
    for k in 0..3 {
        coins[0].depth = EXIT_DEPTH - 1;
        let leaving = coins[0];
        assert!(can_collect(&coins, &winnings, &count));
        let gone = collect(&mut coins, &mut winnings, &mut count);
        assert_eq!(gone, vec![leaving]);
        assert_eq!(count, CoinCount(2 - k));
        assert_eq!(coins.len(), 2 - k);
        assert_eq!(winnings.0, Money::parse(totals[k]).unwrap());
    }
    assert_eq!(winnings.0, Money::new(Some('$'), 375));
}

#[test]
fn the_exit_depth_itself_is_still_in_play() {
    let mut winnings = Winnings::default();
    let mut coins = vec![coin(1, -20, "$1.00"), coin(2, -21, "$1.00"), coin(3, 40, "$1.00")];
    let mut count = CoinCount(3);
    let gone = collect(&mut coins, &mut winnings, &mut count);
    assert_eq!(gone.iter().map(|c| c.id).collect::<Vec<u64>>(), vec![2]);
    assert_eq!(coins.iter().map(|c| c.id).collect::<Vec<u64>>(), vec![1, 3]);
    assert_eq!(winnings.0.cents, 100);
    assert_eq!(count, CoinCount(2));
}

#[test]
fn a_second_sweep_collects_nothing() {
    let mut winnings = Winnings::default();
    let mut coins = vec![coin(1, -30, "$1.00"), coin(2, 5, "$0.25"), coin(3, -25, "$2.50")];
    let mut count = CoinCount(3);
    let gone = collect(&mut coins, &mut winnings, &mut count);
    assert_eq!(gone.iter().map(|c| c.id).collect::<Vec<u64>>(), vec![1, 3]);
    assert_eq!(winnings.0.cents, 350);
    let kept = coins.clone();
    let again = collect(&mut coins, &mut winnings, &mut count);
    assert!(again.is_empty());
    assert_eq!(coins, kept);
    assert_eq!(winnings.0.cents, 350);
    assert_eq!(count, CoinCount(1));
}

#[test]
fn a_sweep_of_nothing_changes_nothing() {
    let mut winnings = Winnings::default();
    let mut coins = Vec::new();
    let mut count = CoinCount(0);
    assert!(can_collect(&coins, &winnings, &count));
    assert!(collect(&mut coins, &mut winnings, &mut count).is_empty());
    assert_eq!(winnings, Winnings::default());
    assert_eq!(count, CoinCount(0));
}

#[test]
fn a_sweep_is_refused_when_it_cannot_be_booked() {
    let winnings = Winnings::default();
    let gone = vec![coin(1, -30, "£1.00")];
    assert!(!can_collect(&gone, &winnings, &CoinCount(1)));
    let in_play = vec![coin(1, 0, "£1.00")];
    assert!(can_collect(&in_play, &winnings, &CoinCount(1)));
    let dollars = vec![coin(1, -30, "$1.00")];
    assert!(!can_collect(&dollars, &winnings, &CoinCount(0)));
    assert!(can_collect(&dollars, &winnings, &CoinCount(2)));
    let full = Winnings(Money::new(Some('$'), i64::MAX));
    assert!(!can_collect(&dollars, &full, &CoinCount(1)));
    let debts = vec![coin(1, -30, "-$1.00")];
    assert!(can_collect(&debts, &full, &CoinCount(1)));
}

#[test]
fn a_sweep_adds_past_a_passing_overflow() {
    let mut winnings = Winnings(Money::new(Some('$'), i64::MAX - 50));
    let mut coins = vec![coin(1, -30, "$1.00"), coin(2, -30, "-$1.00"), coin(3, -30, "$0.50")];
    let mut count = CoinCount(3);
    assert!(can_collect(&coins, &winnings, &count));
    collect(&mut coins, &mut winnings, &mut count);
    assert_eq!(winnings.0.cents, i64::MAX);
}
