use coin_drop::coins::{AutoDrop, AutoDropTimer, CoinDropReason, DropCoin, SECOND};
use coin_drop::ui::{
    adjust_auto_timer, drop_coins, nearest_index, step_period, ButtonState, Key, KeyEvent,
    PointerButton, PointerEvent, TIMER_VALUES,
};

fn press(button: PointerButton) -> PointerEvent {
    PointerEvent { button, state: ButtonState::Pressed }
}

fn release(button: PointerButton) -> PointerEvent {
    PointerEvent { button, state: ButtonState::Released }
}

fn key(key: Key) -> KeyEvent {
    KeyEvent { key, state: ButtonState::Pressed }
}

#[test]
fn a_left_press_drops_a_coin_and_stops_auto() {
    let mut auto = AutoDrop(true);
    let mut timer = AutoDropTimer::default();
    let out = drop_coins(&vec![press(PointerButton::Left)], &mut auto, &mut timer);
    assert_eq!(out.requests, vec![DropCoin::dollar(CoinDropReason::Manual)]);
    assert_eq!(out.requests, vec![DropCoin::manual("$1.00").unwrap()]);
    assert!(out.auto_changed);
    assert_eq!(auto, AutoDrop(false));
    assert_eq!(timer, AutoDropTimer::default());

    let out = drop_coins(&vec![press(PointerButton::Left)], &mut auto, &mut timer);
    assert_eq!(out.requests.len(), 1);
    assert!(!out.auto_changed);
    assert_eq!(auto, AutoDrop(false));
}

#[test]
fn a_right_press_toggles_auto_and_requests_nothing() {
    let mut auto = AutoDrop(false);
    let mut timer = AutoDropTimer::default();
    let out = drop_coins(&vec![press(PointerButton::Right)], &mut auto, &mut timer);
    assert!(out.requests.is_empty());
    assert!(out.auto_changed);
    assert_eq!(auto, AutoDrop(true));
    assert_eq!(timer, AutoDropTimer { period: 2 * SECOND, elapsed: 0, finished: false });

    timer.tick(SECOND);
    let out = drop_coins(&vec![press(PointerButton::Right)], &mut auto, &mut timer);
    assert!(out.requests.is_empty());
    assert_eq!(auto, AutoDrop(false));
    assert_eq!(timer, AutoDropTimer { period: 2 * SECOND, elapsed: SECOND, finished: false });
}

#[test]
fn releases_and_other_buttons_do_nothing() {
    let mut auto = AutoDrop(true);
    let mut timer = AutoDropTimer::default();
    let clicks = vec![
        release(PointerButton::Left),
        release(PointerButton::Right),
        press(PointerButton::Other),
        release(PointerButton::Other),
    ];
    let out = drop_coins(&clicks, &mut auto, &mut timer);
    assert!(out.requests.is_empty());
    assert!(!out.auto_changed);
    assert_eq!(auto, AutoDrop(true));
    assert_eq!(timer, AutoDropTimer::default());
}

#[test]
fn clicks_apply_in_their_order() {
    let mut auto = AutoDrop(false);
    let mut timer = AutoDropTimer::default();
    timer.tick(0);
    let clicks = vec![
        press(PointerButton::Right),
        press(PointerButton::Left),
        press(PointerButton::Left),
        press(PointerButton::Right),
        press(PointerButton::Right),
    ];
    let out = drop_coins(&clicks, &mut auto, &mut timer);
    assert_eq!(out.requests, vec![DropCoin::dollar(CoinDropReason::Manual); 2]);
    assert!(out.auto_changed);
    assert_eq!(auto, AutoDrop(false));
    assert_eq!(timer, AutoDropTimer { period: 2 * SECOND, elapsed: 0, finished: false });
}

#[test]
fn enabling_fires_no_request_before_a_tick() {
    let mut auto = AutoDrop(false);
    let mut timer = AutoDropTimer::default();
    let out = drop_coins(&vec![press(PointerButton::Right)], &mut auto, &mut timer);
    assert!(auto.is_enabled());
    assert!(out.requests.is_empty());
    assert!(!timer.finished());
    assert_eq!(coin_drop::coins::auto_drop_coins(&auto, &mut timer, SECOND), None);
    assert_eq!(
        coin_drop::coins::auto_drop_coins(&auto, &mut timer, SECOND),
        Some(DropCoin::dollar(CoinDropReason::Auto))
    );
}

#[test]
fn the_table_runs_from_half_a_second_to_an_hour() {
    assert_eq!(TIMER_VALUES.len(), 21);
    assert_eq!(TIMER_VALUES[0], SECOND / 2);
    assert_eq!(TIMER_VALUES[2], 2 * SECOND);
    assert_eq!(TIMER_VALUES[20], 3600 * SECOND);
    assert!(TIMER_VALUES.windows(2).all(|w| w[0] < w[1]));
}

#[test]
fn one_step_from_two_seconds() {
    assert_eq!(step_period(2 * SECOND, Key::Equal), 3 * SECOND);
    assert_eq!(step_period(2 * SECOND, Key::NumpadAdd), 3 * SECOND);
    assert_eq!(step_period(2 * SECOND, Key::Minus), SECOND);
    assert_eq!(step_period(2 * SECOND, Key::NumpadSubtract), SECOND);
    assert_eq!(step_period(2 * SECOND, Key::Other), 2 * SECOND);
}

#[test]
fn steps_stop_at_the_ends_of_the_table() {
    assert_eq!(step_period(SECOND / 2, Key::Minus), SECOND / 2);
    assert_eq!(step_period(3600 * SECOND, Key::Equal), 3600 * SECOND);
    assert_eq!(step_period(SECOND / 2, Key::Equal), SECOND);
    assert_eq!(step_period(3600 * SECOND, Key::Minus), 2700 * SECOND);
}

#[test]
fn a_period_off_the_table_steps_from_the_nearest_entry() {
    assert_eq!(nearest_index(0), 0);
    assert_eq!(nearest_index(u64::MAX), 20);
    assert_eq!(nearest_index(2 * SECOND), 2);
    assert_eq!(nearest_index(2 * SECOND + 1), 2);
    assert_eq!(nearest_index(2 * SECOND + SECOND / 2), 2);
    assert_eq!(nearest_index(2 * SECOND + SECOND / 2 + 1), 3);
    assert_eq!(nearest_index(7 * SECOND), 5);
    assert_eq!(nearest_index(8 * SECOND), 6);
    assert_eq!(step_period(7 * SECOND, Key::Equal), 10 * SECOND);
    assert_eq!(step_period(7 * SECOND, Key::Minus), 4 * SECOND);
    assert_eq!(step_period(7 * SECOND, Key::Other), 7 * SECOND);
    for (i, value) in TIMER_VALUES.iter().enumerate() {
        assert_eq!(nearest_index(*value), i);
    }
}

#[test]
fn key_presses_step_the_cadence() {
    let mut timer = AutoDropTimer { period: 2 * SECOND, elapsed: SECOND, finished: false };
    adjust_auto_timer(&vec![key(Key::Equal)], &mut timer);
    assert_eq!(timer, AutoDropTimer { period: 3 * SECOND, elapsed: SECOND, finished: false });
    adjust_auto_timer(&vec![key(Key::Minus), key(Key::NumpadSubtract)], &mut timer);
    assert_eq!(timer.duration(), SECOND);
    let releases = vec![
        KeyEvent { key: Key::Equal, state: ButtonState::Released },
        KeyEvent { key: Key::Minus, state: ButtonState::Released },
        key(Key::Other),
    ];
    adjust_auto_timer(&releases, &mut timer);
    assert_eq!(timer, AutoDropTimer { period: SECOND, elapsed: SECOND, finished: false });
    adjust_auto_timer(&vec![key(Key::Minus); 5], &mut timer);
    assert_eq!(timer.duration(), SECOND / 2);
    adjust_auto_timer(&vec![key(Key::NumpadAdd); 30], &mut timer);
    assert_eq!(timer.duration(), 3600 * SECOND);
}
