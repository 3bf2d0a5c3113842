//! The controls: what clicks and keys do to the machine.

use crate::coins::{dollar_request, AutoDrop, AutoDropTimer, CoinDropReason, DropCoin};
use vstd::prelude::*;

verus! {

/// The periods that the automatic cadence can be set to, in nanoseconds,
/// from half a second to an hour.
pub const TIMER_VALUES: [u64; 21] = [
    500_000_000,
    1_000_000_000,
    2_000_000_000,
    3_000_000_000,
    4_000_000_000,
    5_000_000_000,
    10_000_000_000,
    15_000_000_000,
    20_000_000_000,
    25_000_000_000,
    30_000_000_000,
    45_000_000_000,
    60_000_000_000,
    90_000_000_000,
    120_000_000_000,
    300_000_000_000,
    600_000_000_000,
    900_000_000_000,
    1_800_000_000_000,
    2_700_000_000_000,
    3_600_000_000_000,
];

/// Whether a button or key went down or came up.
#[derive(Debug, Copy, Clone, PartialEq, Eq, Structural)]
pub enum ButtonState {
    Pressed,
    Released,
}

/// The buttons of the pointer.
#[derive(Debug, Copy, Clone, PartialEq, Eq, Structural)]
pub enum PointerButton {
    /// Drops a coin.
    Left,
    /// Switches automatic drops over.
    Right,
    /// Any other button: it does nothing here.
    Other,
}

/// A button of the pointer went down or came up.
#[derive(Debug, Copy, Clone, PartialEq, Eq, Structural)]
pub struct PointerEvent {
    pub button: PointerButton,
    pub state: ButtonState,
}

/// The keys that the machine knows.
#[derive(Debug, Copy, Clone, PartialEq, Eq, Structural)]
pub enum Key {
    /// `=`, which carries `+`: a longer period.
    Equal,
    /// `+` on the number pad: a longer period.
    NumpadAdd,
    /// `-`: a shorter period.
    Minus,
    /// `-` on the number pad: a shorter period.
    NumpadSubtract,
    /// Any other key: it does nothing here.
    Other,
}

/// A key went down or came up.
#[derive(Debug, Copy, Clone, PartialEq, Eq, Structural)]
pub struct KeyEvent {
    pub key: Key,
    pub state: ButtonState,
}

/// A press of the button that drops a coin.
pub open spec fn is_drop_press(e: PointerEvent) -> bool {
    e.button == PointerButton::Left && e.state == ButtonState::Pressed
}

/// A press of the button that switches automatic drops over.
pub open spec fn is_toggle_press(e: PointerEvent) -> bool {
    e.button == PointerButton::Right && e.state == ButtonState::Pressed
}

/// Whether automatic drops are on after `clicks`: a drop by hand switches
/// them off, a toggle switches them over.
pub open spec fn auto_after(auto: bool, clicks: Seq<PointerEvent>) -> bool
    decreases clicks.len(),
{
    if clicks.len() == 0 {
        auto
    } else if is_drop_press(clicks.last()) {
        false
    } else if is_toggle_press(clicks.last()) {
        !auto_after(auto, clicks.drop_last())
    } else {
        auto_after(auto, clicks.drop_last())
    }
}

/// Whether `clicks` wrote to the switch of automatic drops: by a toggle, or
/// by a drop by hand that found them on.
pub open spec fn auto_written(auto: bool, clicks: Seq<PointerEvent>) -> bool
    decreases clicks.len(),
{
    if clicks.len() == 0 {
        false
    } else {
        ||| auto_written(auto, clicks.drop_last())
        ||| is_toggle_press(clicks.last())
        ||| is_drop_press(clicks.last()) && auto_after(auto, clicks.drop_last())
    }
}

/// The cadence after `clicks`: it starts anew whenever automatic drops are
/// switched on.
pub open spec fn timer_after(timer: AutoDropTimer, auto: bool, clicks: Seq<PointerEvent>)
    -> AutoDropTimer
    decreases clicks.len(),
{
    if clicks.len() == 0 {
        timer
    } else if is_toggle_press(clicks.last()) && !is_drop_press(clicks.last()) && !auto_after(
        auto,
        clicks.drop_last(),
    ) {
        timer_after(timer, auto, clicks.drop_last()).rearmed()
    } else {
        timer_after(timer, auto, clicks.drop_last())
    }
}

/// The number of drops by hand among `clicks`.
pub open spec fn drop_presses(clicks: Seq<PointerEvent>) -> nat {
    clicks.filter(|e: PointerEvent| is_drop_press(e)).len()
}

/// What a batch of clicks asked for.
#[derive(Debug)]
pub struct Clicks {
    /// The coins requested by hand, one for each drop press.
    pub requests: Vec<DropCoin>,
    /// Whether the switch of automatic drops was written to.
    pub auto_changed: bool,
}

/// Applies a batch of clicks, in their order. Each press of the left button
/// requests a one-dollar coin by hand and switches automatic drops off; each
/// press of the right button switches them over, and starts the cadence anew
/// where it switches them on. Releases and other buttons do nothing.
pub fn drop_coins(clicks: &Vec<PointerEvent>, auto: &mut AutoDrop, timer: &mut AutoDropTimer) -> (out:
    Clicks)
    ensures
        final(auto).0 == auto_after(old(auto).0, clicks@),
        *final(timer) == timer_after(*old(timer), old(auto).0, clicks@),
        out.auto_changed == auto_written(old(auto).0, clicks@),
        out.requests@ == Seq::new(
            drop_presses(clicks@),
            |i: int| dollar_request(CoinDropReason::Manual),
        ),
{
    let ghost auto0 = auto.0;
    let ghost timer0 = *timer;
    let ghost pressed = |e: PointerEvent| is_drop_press(e);
    let mut requests: Vec<DropCoin> = Vec::new();
    let mut changed: bool = false;
    let n: usize = clicks.len();
    let mut i: usize = 0;
    while i < n
        invariant
            i <= n,
            n == clicks@.len(),
            pressed == |e: PointerEvent| is_drop_press(e),
            auto.0 == auto_after(auto0, clicks@.take(i as int)),
            *timer == timer_after(timer0, auto0, clicks@.take(i as int)),
            changed == auto_written(auto0, clicks@.take(i as int)),
            requests@.len() == clicks@.take(i as int).filter(pressed).len(),
            forall|j: int| 0 <= j < requests@.len() ==> requests@[j] == dollar_request(
                CoinDropReason::Manual,
            ),
        decreases n - i,
    {
        let e = clicks[i];
        proof {
            assert(clicks@.take(i + 1).drop_last() =~= clicks@.take(i as int));
            assert(clicks@.take(i + 1).last() == e);
            assert(clicks@.take(i + 1) =~= clicks@.take(i as int).push(e));
            clicks@.take(i as int).lemma_filter_push(e, pressed);
        }
        if e.button == PointerButton::Left && e.state == ButtonState::Pressed {
            if auto.0 {
                auto.0 = false;
                changed = true;
            }
            requests.push(DropCoin::dollar(CoinDropReason::Manual));
        } else if e.button == PointerButton::Right && e.state == ButtonState::Pressed {
            auto.0 = !auto.0;
            changed = true;
            if auto.0 {
                timer.reset();
            }
        }
        i = i + 1;
    }
    assert(clicks@.take(n as int) =~= clicks@);
    assert(requests@ =~= Seq::new(
        drop_presses(clicks@),
        |i: int| dollar_request(CoinDropReason::Manual),
    ));
    Clicks { requests, auto_changed: changed }
}

/// How far two periods are apart.
pub open spec fn distance(a: u64, b: u64) -> int {
    if a >= b {
        a - b
    } else {
        b - a
    }
}

/// Whether entry `i` of the table is the nearest to `period`: no entry is
/// nearer, and of two equally near the shorter one counts.
pub open spec fn is_nearest_index(i: int, period: u64) -> bool {
    &&& 0 <= i < 21
    &&& forall|j: int|
        0 <= j < 21 ==> distance(TIMER_VALUES[i], period) <= distance(
            #[trigger] TIMER_VALUES[j],
            period,
        )
    &&& forall|j: int|
        0 <= j < i ==> distance(TIMER_VALUES[i], period) < distance(
            #[trigger] TIMER_VALUES[j],
            period,
        )
}

/// The index of the table's entry nearest to `period`; of `period` itself
/// where the table holds it.
pub open spec fn nearest_index_of(period: u64) -> int {
    choose|i: int| is_nearest_index(i, period)
}

/// Only one entry is the nearest.
pub proof fn lemma_nearest_is_unique(i: int, j: int, period: u64)
    requires
        is_nearest_index(i, period),
        is_nearest_index(j, period),
    ensures
        i == j,
{
    if i < j {
        assert(distance(TIMER_VALUES[j], period) < distance(TIMER_VALUES[i], period));
    } else if j < i {
        assert(distance(TIMER_VALUES[i], period) < distance(TIMER_VALUES[j], period));
    }
}

/// An entry of the table is its own nearest.
pub proof fn lemma_nearest_of_entry(i: int)
    requires
        0 <= i < 21,
    ensures
        nearest_index_of(TIMER_VALUES[i]) == i,
{
    assert(forall|a: int, b: int| 0 <= a < b < 21 ==> TIMER_VALUES[a] < TIMER_VALUES[b]);
    assert(is_nearest_index(i, TIMER_VALUES[i]));
    lemma_nearest_is_unique(i, nearest_index_of(TIMER_VALUES[i]), TIMER_VALUES[i]);
}

/// Finds the entry of the table nearest to `period` by bisection.
pub fn nearest_index(period: u64) -> (i: usize)
    ensures
        i == nearest_index_of(period),
        is_nearest_index(i as int, period),
{
    assert(forall|a: int, b: int| 0 <= a < b < 21 ==> TIMER_VALUES[a] < TIMER_VALUES[b]);
    let mut lo: usize = 0;
    let mut hi: usize = 21;
    while lo < hi
        invariant
            lo <= hi <= 21,
            forall|j: int| 0 <= j < lo ==> #[trigger] TIMER_VALUES[j] < period,
            forall|j: int| hi <= j < 21 ==> #[trigger] TIMER_VALUES[j] >= period,
        decreases hi - lo,
    {
        let mid: usize = lo + (hi - lo) / 2;
        if TIMER_VALUES[mid] < period {
            assert forall|j: int| 0 <= j < mid + 1 implies #[trigger] TIMER_VALUES[j] < period by {
                assert(j < mid ==> TIMER_VALUES[j] < TIMER_VALUES[mid as int]);
            }
            lo = mid + 1;
        } else {
            assert forall|j: int| mid <= j < 21 implies #[trigger] TIMER_VALUES[j] >= period by {
                assert(mid < j ==> TIMER_VALUES[mid as int] < TIMER_VALUES[j]);
            }
            hi = mid;
        }
    }
    let i: usize = if lo == 0 {
        0
    } else if lo == 21 {
        20
    } else if period - TIMER_VALUES[lo - 1] <= TIMER_VALUES[lo] - period {
        lo - 1
    } else {
        lo
    };
    proof {
        assert forall|j: int| 0 <= j < 21 implies distance(TIMER_VALUES[i as int], period)
            <= distance(#[trigger] TIMER_VALUES[j], period) by {
            assert(j < lo - 1 ==> TIMER_VALUES[j] < TIMER_VALUES[lo - 1]);
            assert(j > lo && lo < 21 ==> TIMER_VALUES[lo as int] < TIMER_VALUES[j]);
        }
        assert forall|j: int| 0 <= j < i implies distance(TIMER_VALUES[i as int], period)
            < distance(#[trigger] TIMER_VALUES[j], period) by {
            assert(j < lo - 1 ==> TIMER_VALUES[j] < TIMER_VALUES[lo - 1]);
        }
        assert(is_nearest_index(i as int, period));
        lemma_nearest_is_unique(i as int, nearest_index_of(period), period);
    }
    i
}

/// A key that asks for a longer period.
pub open spec fn lengthens(key: Key) -> bool {
    key == Key::Equal || key == Key::NumpadAdd
}

/// A key that asks for a shorter period.
pub open spec fn shortens(key: Key) -> bool {
    key == Key::Minus || key == Key::NumpadSubtract
}

/// The period one step from `period`: the entry behind the nearest one for a
/// key that lengthens, the entry before it for a key that shortens, and no
/// step past either end of the table. Other keys leave the period alone.
pub open spec fn stepped_period(period: u64, key: Key) -> u64 {
    let i = nearest_index_of(period);
    if lengthens(key) {
        if i + 1 < 21 {
            TIMER_VALUES[i + 1]
        } else {
            TIMER_VALUES[20]
        }
    } else if shortens(key) {
        if i >= 1 {
            TIMER_VALUES[i - 1]
        } else {
            TIMER_VALUES[0]
        }
    } else {
        period
    }
}

/// The period after `keys`, each press stepping it once.
pub open spec fn period_after(period: u64, keys: Seq<KeyEvent>) -> u64
    decreases keys.len(),
{
    if keys.len() == 0 {
        period
    } else if keys.last().state == ButtonState::Pressed {
        stepped_period(period_after(period, keys.drop_last()), keys.last().key)
    } else {
        period_after(period, keys.drop_last())
    }
}

/// Steps a period once for a key.
pub fn step_period(period: u64, key: Key) -> (stepped: u64)
    ensures
        stepped == stepped_period(period, key),
{
    match key {
        Key::Equal | Key::NumpadAdd => {
            let i: usize = nearest_index(period);
            if i + 1 < 21 {
                TIMER_VALUES[i + 1]
            } else {
                TIMER_VALUES[20]
            }
        },
        Key::Minus | Key::NumpadSubtract => {
            let i: usize = nearest_index(period);
            if i >= 1 {
                TIMER_VALUES[i - 1]
            } else {
                TIMER_VALUES[0]
            }
        },
        Key::Other => period,
    }
}

/// Applies a batch of key events to the cadence: each press of a key that
/// lengthens or shortens steps the period once through the table. Nothing
/// else of the timer changes.
pub fn adjust_auto_timer(keys: &Vec<KeyEvent>, timer: &mut AutoDropTimer)
    ensures
        *final(timer) == (AutoDropTimer {
            period: period_after(old(timer).period, keys@),
            ..*old(timer)
        }),
{
    let ghost timer0 = *timer;
    let n: usize = keys.len();
    let mut i: usize = 0;
    while i < n
        invariant
            i <= n,
            n == keys@.len(),
            *timer == (AutoDropTimer {
                period: period_after(timer0.period, keys@.take(i as int)),
                ..timer0
            }),
        decreases n - i,
    {
        let e = keys[i];
        proof {
            assert(keys@.take(i + 1).drop_last() =~= keys@.take(i as int));
            assert(keys@.take(i + 1).last() == e);
        }
        if e.state == ButtonState::Pressed {
            let stepped: u64 = step_period(timer.duration(), e.key);
            timer.set_duration(stepped);
        }
        i = i + 1;
    }
    assert(keys@.take(n as int) =~= keys@);
}

/// From an entry of the table a step leads to the next entry, up or down,
/// and stays at the last entry going up and at the first going down.
pub proof fn lemma_step_through_table(i: int, key: Key)
    requires
        0 <= i < 21,
    ensures
        lengthens(key) && i < 20 ==> stepped_period(TIMER_VALUES[i], key) == TIMER_VALUES[i + 1],
        lengthens(key) && i == 20 ==> stepped_period(TIMER_VALUES[i], key) == TIMER_VALUES[20],
        shortens(key) && i > 0 ==> stepped_period(TIMER_VALUES[i], key) == TIMER_VALUES[i - 1],
        shortens(key) && i == 0 ==> stepped_period(TIMER_VALUES[i], key) == TIMER_VALUES[0],
        !lengthens(key) && !shortens(key) ==> stepped_period(TIMER_VALUES[i], key)
            == TIMER_VALUES[i],
{
    lemma_nearest_of_entry(i);
}

/// Whatever the period was, after a step it is an entry of the table.
pub proof fn lemma_step_lands_in_table(period: u64, key: Key)
    requires
        lengthens(key) || shortens(key),
    ensures
        exists|i: int| 0 <= i < 21 && stepped_period(period, key) == TIMER_VALUES[i],
{
    assert(forall|a: int, b: int| 0 <= a < b < 21 ==> TIMER_VALUES[a] < TIMER_VALUES[b]);
    lemma_some_entry_is_nearest(period);
    let i = nearest_index_of(period);
    if lengthens(key) {
        if i + 1 < 21 {
            assert(stepped_period(period, key) == TIMER_VALUES[i + 1]);
        } else {
            assert(stepped_period(period, key) == TIMER_VALUES[20]);
        }
    } else {
        if i >= 1 {
            assert(stepped_period(period, key) == TIMER_VALUES[i - 1]);
        } else {
            assert(stepped_period(period, key) == TIMER_VALUES[0]);
        }
    }
}

/// Every period has a nearest entry.
pub proof fn lemma_some_entry_is_nearest(period: u64)
    ensures
        is_nearest_index(nearest_index_of(period), period),
{
    assert(forall|a: int, b: int| 0 <= a < b < 21 ==> TIMER_VALUES[a] < TIMER_VALUES[b]);
    let i = least_nearest(period, 21);
    lemma_least_nearest(period, 21);
    assert(is_nearest_index(i, period));
}

/// The nearest entry among the first `n`, the first of them where several
/// are equally near.
spec fn least_nearest(period: u64, n: int) -> int
    decreases n,
{
    if n <= 1 {
        0
    } else {
        let best = least_nearest(period, n - 1);
        if distance(TIMER_VALUES[n - 1], period) < distance(TIMER_VALUES[best], period) {
            n - 1
        } else {
            best
        }
    }
}

proof fn lemma_least_nearest(period: u64, n: int)
    requires
        1 <= n <= 21,
    ensures
        ({
            let i = least_nearest(period, n);
            &&& 0 <= i < n
            &&& forall|j: int|
                0 <= j < n ==> distance(TIMER_VALUES[i], period) <= distance(
                    #[trigger] TIMER_VALUES[j],
                    period,
                )
            &&& forall|j: int|
                0 <= j < i ==> distance(TIMER_VALUES[i], period) < distance(
                    #[trigger] TIMER_VALUES[j],
                    period,
                )
        }),
    decreases n,
{
    if n > 1 {
        lemma_least_nearest(period, n - 1);
    }
}

} // verus!
