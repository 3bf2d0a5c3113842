//! Coins, drop requests and the queue that admits at most one coin per tick.

use crate::money::{parsed_money, Money, ParseMoneyError};
use std::collections::VecDeque;
use vstd::prelude::*;

verus! {

/// A coin and what it is worth.
#[derive(Clone, Copy, Debug, PartialEq, Eq)]
pub struct Coin {
    pub value: Money,
}

/// One dollar: the value of every coin that the machine itself requests.
pub open spec fn one_dollar() -> Money {
    Money { symbol: Some('$'), cents: 100 }
}

impl Default for Coin {
    fn default() -> (c: Coin)
        ensures
            c.value == one_dollar(),
    {
        Coin { value: Money { symbol: Some('$'), cents: 100 } }
    }
}

/// Where a drop request came from.
#[derive(Debug, Copy, Clone, PartialEq, Eq, Structural)]
pub enum CoinDropReason {
    /// The automatic cadence asked for it.
    Auto,
    /// The player asked for it.
    Manual,
}

/// A request to drop one coin into the machine.
#[derive(Clone, Copy, Debug, PartialEq, Eq)]
pub struct DropCoin {
    pub coin: Coin,
    pub reason: CoinDropReason,
}

/// The request that `DropCoin::auto` and `DropCoin::manual` make of a literal.
pub open spec fn drop_request(value: Seq<char>, reason: CoinDropReason) -> Result<
    DropCoin,
    ParseMoneyError,
> {
    match parsed_money(value) {
        Ok(m) => Ok(DropCoin { coin: Coin { value: m }, reason }),
        Err(e) => Err(e),
    }
}

/// The one-dollar request of the given origin.
pub open spec fn dollar_request(reason: CoinDropReason) -> DropCoin {
    DropCoin { coin: Coin { value: one_dollar() }, reason }
}

impl DropCoin {
    /// An automatic request for a coin worth `value`; the error of
    /// `Money::parse` where `value` is no amount.
    pub fn auto(value: &str) -> (r: Result<Self, ParseMoneyError>)
        ensures
            r == drop_request(value@, CoinDropReason::Auto),
    {
        match Money::parse(value) {
            Ok(m) => Ok(DropCoin { coin: Coin { value: m }, reason: CoinDropReason::Auto }),
            Err(e) => Err(e),
        }
    }

    /// A manual request for a coin worth `value`; the error of
    /// `Money::parse` where `value` is no amount.
    pub fn manual(value: &str) -> (r: Result<Self, ParseMoneyError>)
        ensures
            r == drop_request(value@, CoinDropReason::Manual),
    {
        match Money::parse(value) {
            Ok(m) => Ok(DropCoin { coin: Coin { value: m }, reason: CoinDropReason::Manual }),
            Err(e) => Err(e),
        }
    }

    /// The one-dollar request of the given origin.
    pub fn dollar(reason: CoinDropReason) -> (r: Self)
        ensures
            r == dollar_request(reason),
    {
        DropCoin { coin: Coin::default(), reason }
    }

    /// Whether the automatic cadence made this request.
    pub fn is_auto(&self) -> (b: bool)
        ensures
            b == (self.reason == CoinDropReason::Auto),
    {
        self.reason == CoinDropReason::Auto
    }
}

/// The requests of `q` that the player made, in their order.
pub open spec fn without_auto(q: Seq<DropCoin>) -> Seq<DropCoin> {
    q.filter(|r: DropCoin| r.reason != CoinDropReason::Auto)
}

/// The pending drop requests, oldest first.
#[derive(Debug)]
pub struct CoinQueue(VecDeque<DropCoin>);

impl View for CoinQueue {
    type V = Seq<DropCoin>;

    closed spec fn view(&self) -> Seq<DropCoin> {
        self.0@
    }
}

impl Clone for CoinQueue {
    fn clone(&self) -> (q: Self)
        ensures
            q@ == self@,
    {
        let mut copy: VecDeque<DropCoin> = VecDeque::new();
        let n: usize = self.0.len();
        let mut i: usize = 0;
        while i < n
            invariant
                i <= n,
                n == self.0@.len(),
                copy@ == self.0@.take(i as int),
            decreases n - i,
        {
            copy.push_back(self.0[i]);
            assert(self.0@.take(i + 1) =~= self.0@.take(i as int).push(self.0@[i as int]));
            i = i + 1;
        }
        assert(self.0@.take(n as int) =~= self.0@);
        CoinQueue(copy)
    }
}

impl Default for CoinQueue {
    fn default() -> (q: Self)
        ensures
            q@ == Seq::<DropCoin>::empty(),
    {
        CoinQueue(VecDeque::new())
    }
}

impl CoinQueue {
    /// The empty queue.
    pub fn new() -> (q: Self)
        ensures
            q@ == Seq::<DropCoin>::empty(),
    {
        CoinQueue(VecDeque::new())
    }

    /// The number of pending requests.
    pub fn len(&self) -> (n: usize)
        ensures
            n == self@.len(),
    {
        self.0.len()
    }

    /// The request at position `i`, counted from the oldest; `None` past the end.
    pub fn get(&self, i: usize) -> (r: Option<DropCoin>)
        ensures
            r == if i < self@.len() { Some(self@[i as int]) } else { None::<DropCoin> },
    {
        if i < self.0.len() {
            Some(self.0[i])
        } else {
            None
        }
    }

    /// Puts a request behind all the others.
    pub fn push_back(&mut self, request: DropCoin)
        ensures
            final(self)@ == old(self)@.push(request),
    {
        self.0.push_back(request);
    }

    /// Puts a request before all the others.
    pub fn push_front(&mut self, request: DropCoin)
        ensures
            final(self)@ == seq![request] + old(self)@,
    {
        self.0.push_front(request);
    }

    /// Takes the oldest request out; `None` from an empty queue.
    pub fn pop_front(&mut self) -> (r: Option<DropCoin>)
        ensures
            r == if old(self)@.len() > 0 { Some(old(self)@[0]) } else { None::<DropCoin> },
            final(self)@ == if old(self)@.len() > 0 { old(self)@.drop_first() } else { old(self)@ },
    {
        self.0.pop_front()
    }

    /// Removes every automatic request. The manual ones stay, in their order.
    pub fn purge_auto(&mut self)
        ensures
            final(self)@ == without_auto(old(self)@),
    {
        let ghost before = self.0@;
        let ghost keep = |r: DropCoin| r.reason != CoinDropReason::Auto;
        let mut kept: VecDeque<DropCoin> = VecDeque::new();
        let n: usize = self.0.len();
        let mut i: usize = 0;
        while i < n
            invariant
                i <= n,
                n == before.len(),
                self.0@ == before,
                keep == |r: DropCoin| r.reason != CoinDropReason::Auto,
                kept@ == before.take(i as int).filter(keep),
            decreases n - i,
        {
            let r = self.0[i];
            proof {
                assert(before.take(i + 1) =~= before.take(i as int).push(r));
                before.take(i as int).lemma_filter_push(r, keep);
            }
            if !r.is_auto() {
                kept.push_back(r);
            }
            i = i + 1;
        }
        assert(before.take(n as int) =~= before);
        self.0 = kept;
    }
}

/// Whether coins drop by themselves.
#[derive(Debug, Copy, Clone, PartialEq, Eq)]
pub struct AutoDrop(pub bool);

impl Default for AutoDrop {
    fn default() -> (a: Self)
        ensures
            !a.0,
    {
        AutoDrop(false)
    }
}

impl AutoDrop {
    /// Whether automatic drops are switched on.
    pub fn is_enabled(&self) -> (b: bool)
        ensures
            b == self.0,
    {
        self.0
    }
}

impl std::ops::Not for AutoDrop {
    type Output = Self;

    fn not(self) -> (r: Self) {
        AutoDrop(!self.0)
    }
}

impl vstd::std_specs::ops::NotSpecImpl for AutoDrop {
    open spec fn obeys_not_spec() -> bool {
        true
    }

    open spec fn not_req(self) -> bool {
        true
    }

    /// `!` switches automatic drops over.
    open spec fn not_spec(self) -> Self {
        AutoDrop(!self.0)
    }
}

/// One second, in the nanoseconds that all durations here are counted in.
pub const SECOND: u64 = 1_000_000_000;

/// The period of a new cadence: two seconds.
pub const DEFAULT_PERIOD: u64 = 2_000_000_000;

/// The cadence of automatic drops: a one-shot timer. Once it has run out it
/// stays run out, whatever time passes, until it is reset.
#[derive(Debug, Copy, Clone, PartialEq, Eq)]
pub struct AutoDropTimer {
    /// The time from a reset to the first automatic request.
    pub period: u64,
    /// The time counted since the last reset, never counted past the period
    /// by a tick.
    pub elapsed: u64,
    /// Whether the timer has run out.
    pub finished: bool,
}

impl Default for AutoDropTimer {
    /// A timer of two seconds that runs out on its first tick.
    fn default() -> (t: Self)
        ensures
            t == (AutoDropTimer {
                period: DEFAULT_PERIOD,
                elapsed: DEFAULT_PERIOD,
                finished: false,
            }),
    {
        AutoDropTimer { period: DEFAULT_PERIOD, elapsed: DEFAULT_PERIOD, finished: false }
    }
}

impl AutoDropTimer {
    /// The timer after `delta` more has passed.
    pub open spec fn ticked(self, delta: u64) -> Self {
        if self.finished {
            self
        } else if self.elapsed + delta >= self.period {
            AutoDropTimer { period: self.period, elapsed: self.period, finished: true }
        } else {
            AutoDropTimer {
                period: self.period,
                elapsed: (self.elapsed + delta) as u64,
                finished: false,
            }
        }
    }

    /// The timer after a reset.
    pub open spec fn rearmed(self) -> Self {
        AutoDropTimer { period: self.period, elapsed: 0, finished: false }
    }

    /// The timer after one tick for each of `deltas`, in their order.
    pub open spec fn ticked_through(self, deltas: Seq<u64>) -> Self
        decreases deltas.len(),
    {
        if deltas.len() == 0 {
            self
        } else {
            self.ticked_through(deltas.drop_last()).ticked(deltas.last())
        }
    }

    /// Lets `delta` pass.
    pub fn tick(&mut self, delta: u64)
        ensures
            *final(self) == old(self).ticked(delta),
    {
        if !self.finished {
            let total: u64 = self.elapsed.saturating_add(delta);
            if total >= self.period {
                self.elapsed = self.period;
                self.finished = true;
            } else {
                self.elapsed = total;
            }
        }
    }

    /// Starts the count again from zero.
    pub fn reset(&mut self)
        ensures
            *final(self) == old(self).rearmed(),
    {
        self.elapsed = 0;
        self.finished = false;
    }

    /// Whether the timer has run out.
    pub fn finished(&self) -> (b: bool)
        ensures
            b == self.finished,
    {
        self.finished
    }

    /// The period.
    pub fn duration(&self) -> (d: u64)
        ensures
            d == self.period,
    {
        self.period
    }

    /// Changes the period and nothing else.
    pub fn set_duration(&mut self, period: u64)
        ensures
            *final(self) == (AutoDropTimer { period, ..*old(self) }),
    {
        self.period = period;
    }
}

/// The sum of `deltas`.
pub open spec fn total_time(deltas: Seq<u64>) -> nat
    decreases deltas.len(),
{
    if deltas.len() == 0 {
        0
    } else {
        total_time(deltas.drop_last()) + deltas.last() as nat
    }
}

/// The cadence after a tick of `delta`: it counts only while automatic
/// drops are on.
pub open spec fn cadence_after(auto_drop: AutoDrop, timer: AutoDropTimer, delta: u64)
    -> AutoDropTimer {
    if auto_drop.0 {
        timer.ticked(delta)
    } else {
        timer
    }
}

/// One tick of the cadence. While automatic drops are on, `delta` passes on
/// the timer, and one automatic one-dollar coin is asked for if the timer
/// has run out, on this tick or on an earlier one. While they are off,
/// nothing happens.
///
/// A request does not arm the timer again: only `drop_coins` does, when it
/// admits an automatic request. Until then every tick asks anew, so several
/// automatic requests can queue up behind one that is deferred.
pub fn auto_drop_coins(auto_drop: &AutoDrop, timer: &mut AutoDropTimer, delta: u64) -> (request:
    Option<DropCoin>)
    ensures
        *final(timer) == cadence_after(*auto_drop, *old(timer), delta),
        request == if auto_drop.0 && final(timer).finished {
            Some(dollar_request(CoinDropReason::Auto))
        } else {
            None::<DropCoin>
        },
{
    if !auto_drop.is_enabled() {
        return None;
    }
    timer.tick(delta);
    if timer.finished() {
        Some(DropCoin::dollar(CoinDropReason::Auto))
    } else {
        None
    }
}

/// A timer that has run out is not armed again by time alone: every later
/// tick finds it run out, so every later tick asks for a coin.
pub proof fn lemma_fired_timer_keeps_firing(timer: AutoDropTimer, deltas: Seq<u64>)
    requires
        timer.finished,
    ensures
        timer.ticked_through(deltas) == timer,
    decreases deltas.len(),
{
    if deltas.len() > 0 {
        lemma_fired_timer_keeps_firing(timer, deltas.drop_last());
    }
}

/// After a reset nothing fires before a tick, and the timer runs out on the
/// first tick by which a full period has passed.
pub proof fn lemma_first_fire_after_reset(timer: AutoDropTimer, deltas: Seq<u64>)
    ensures
        deltas.len() == 0 ==> !timer.rearmed().ticked_through(deltas).finished,
        deltas.len() > 0 ==> (timer.rearmed().ticked_through(deltas).finished <==> total_time(deltas)
            >= timer.period),
    decreases deltas.len(),
{
    lemma_ticks_after_reset(timer, deltas);
}

/// While a reset timer has not run out it has counted all the time that passed.
proof fn lemma_ticks_after_reset(timer: AutoDropTimer, deltas: Seq<u64>)
    ensures
        ({
            let t = timer.rearmed().ticked_through(deltas);
            &&& t.period == timer.period
            &&& !t.finished ==> t.elapsed == total_time(deltas)
            &&& deltas.len() == 0 ==> !t.finished
            &&& deltas.len() > 0 ==> (t.finished <==> total_time(deltas) >= timer.period)
        }),
    decreases deltas.len(),
{
    if deltas.len() > 0 {
        lemma_ticks_after_reset(timer, deltas.drop_last());
    }
}

/// The frame rate, in whole frames per second, under which no coin is admitted.
pub const MIN_FPS: u32 = 24;

/// What the machine reports when a pending request asks for admission.
#[derive(Debug, Copy, Clone, PartialEq, Eq)]
pub struct Telemetry {
    /// The smoothed frame rate, rounded down to whole frames per second;
    /// `None` while no rate is known.
    pub fps: Option<u32>,
    /// Whether a coin overlaps the drop zone.
    pub zone_occupied: bool,
    /// The time of this tick on a clock that never runs backwards.
    pub now: u64,
}

/// The verdict of the admission gate on the request at the head of the line.
#[derive(Debug, Copy, Clone, PartialEq, Eq, Structural)]
pub enum Admission {
    /// The coin may enter now.
    Admit,
    /// The frame rate is known and too low.
    DeferLowFps,
    /// Another coin is in the drop zone.
    DeferOccupied,
}

/// The admission rule: a known frame rate under `MIN_FPS` defers, and so does an
/// occupied drop zone. The frame rate is looked at first.
pub open spec fn gate(fps: Option<u32>, zone_occupied: bool) -> Admission {
    if fps is Some && fps->0 < MIN_FPS {
        Admission::DeferLowFps
    } else if zone_occupied {
        Admission::DeferOccupied
    } else {
        Admission::Admit
    }
}

/// Decides whether the request at the head of the line may enter.
pub fn admission_gate(fps: Option<u32>, zone_occupied: bool) -> (verdict: Admission)
    ensures
        verdict == gate(fps, zone_occupied),
{
    let low: bool = match fps {
        Some(rate) => rate < MIN_FPS,
        None => false,
    };
    if low {
        Admission::DeferLowFps
    } else if zone_occupied {
        Admission::DeferOccupied
    } else {
        Admission::Admit
    }
}

/// Whether a low frame rate may be reported at `now`: never before, or at
/// least a second after, the last report.
pub open spec fn warning_due(last: Option<u64>, now: u64) -> bool {
    last is Some ==> now - last->0 >= SECOND
}

/// Decides `warning_due`.
pub fn is_warning_due(last: Option<u64>, now: u64) -> (due: bool)
    ensures
        due == warning_due(last, now),
{
    match last {
        Some(then) => now >= then && now - then >= SECOND,
        None => true,
    }
}

/// The requests in line at a tick: the queue, without its automatic
/// requests where those are purged, and behind it the new arrivals.
pub open spec fn in_line(queue: Seq<DropCoin>, purge: bool, arrivals: Seq<DropCoin>) -> Seq<
    DropCoin,
> {
    if purge {
        without_auto(queue) + arrivals
    } else {
        queue + arrivals
    }
}

/// The coin that a tick spawns: the head of the line, if admission is granted.
pub open spec fn spawned_by(line: Seq<DropCoin>, granted: bool) -> Option<DropCoin> {
    if granted && line.len() > 0 {
        Some(line[0])
    } else {
        None
    }
}

/// The queue that a tick leaves: the line without its head where the head
/// was admitted, else the whole line, the head still first.
pub open spec fn queue_after(line: Seq<DropCoin>, granted: bool) -> Seq<DropCoin> {
    if granted && line.len() > 0 {
        line.drop_first()
    } else {
        line
    }
}

/// What one tick of the queue did.
#[derive(Debug, Copy, Clone, PartialEq, Eq)]
pub struct Tick {
    /// The request that was admitted: the caller spawns its coin.
    pub spawned: Option<DropCoin>,
    /// The verdict on the head of the line; `None` where nothing was in line.
    pub verdict: Option<Admission>,
    /// Whether the low frame rate is to be reported on this tick.
    pub warn_low_fps: bool,
}

/// One tick of the admission queue.
///
/// New arrivals join the line behind the queue. Where automatic drops were
/// just switched off, the automatic requests leave the queue first. Only the
/// head of the line asks for admission. Admitted, it leaves the line and is handed
/// back for spawning; deferred, it stays at the head. An admitted automatic
/// request resets the cadence, and every admitted request is counted as a
/// coin in the machine. A deferral for low frame rate is reported at most
/// once a second.
pub fn drop_coins(
    events: &Vec<DropCoin>,
    queue: &mut CoinQueue,
    auto_drop: &AutoDrop,
    auto_drop_changed: bool,
    telemetry: &Telemetry,
    last_fps_warn: &mut Option<u64>,
    auto_drop_timer: &mut AutoDropTimer,
    count: &mut CoinCount,
) -> (tick: Tick)
    requires
        old(count).0 < usize::MAX,
    ensures
        ({
            let line = in_line(old(queue)@, auto_drop_changed && !auto_drop.0, events@);
            let verdict = gate(telemetry.fps, telemetry.zone_occupied);
            let granted = verdict == Admission::Admit;
            &&& tick.spawned == spawned_by(line, granted)
            &&& final(queue)@ == queue_after(line, granted)
            &&& tick.verdict == if line.len() > 0 { Some(verdict) } else { None::<Admission> }
            &&& tick.warn_low_fps == (line.len() > 0 && verdict == Admission::DeferLowFps
                && warning_due(*old(last_fps_warn), telemetry.now))
            &&& *final(last_fps_warn) == if tick.warn_low_fps {
                Some(telemetry.now)
            } else {
                *old(last_fps_warn)
            }
            &&& *final(auto_drop_timer) == if tick.spawned is Some && tick.spawned->0.reason
                == CoinDropReason::Auto {
                old(auto_drop_timer).rearmed()
            } else {
                *old(auto_drop_timer)
            }
            &&& final(count).0 == if tick.spawned is Some {
                old(count).0 + 1
            } else {
                old(count).0 as int
            }
        }),
{
    if auto_drop_changed && !auto_drop.is_enabled() {
        queue.purge_auto();
    }
    let ghost kept = queue@;
    let n: usize = events.len();
    let mut i: usize = 0;
    while i < n
        invariant
            i <= n,
            n == events@.len(),
            queue@ == kept + events@.take(i as int),
        decreases n - i,
    {
        queue.push_back(events[i]);
        assert(events@.take(i + 1) =~= events@.take(i as int).push(events@[i as int]));
        assert(kept + events@.take(i + 1) =~= (kept + events@.take(i as int)).push(
            events@[i as int],
        ));
        i = i + 1;
    }
    assert(events@.take(n as int) =~= events@);
    if queue.len() == 0 {
        return Tick { spawned: None, verdict: None, warn_low_fps: false };
    }
    let verdict = admission_gate(telemetry.fps, telemetry.zone_occupied);
    match verdict {
        Admission::Admit => {
            let head = queue.pop_front();
            if let Some(request) = head {
                if request.is_auto() {
                    auto_drop_timer.reset();
                }
                increment_coin_count(count);
            }
            Tick { spawned: head, verdict: Some(verdict), warn_low_fps: false }
        },
        Admission::DeferLowFps => {
            let warn: bool = is_warning_due(*last_fps_warn, telemetry.now);
            if warn {
                *last_fps_warn = Some(telemetry.now);
            }
            Tick { spawned: None, verdict: Some(verdict), warn_low_fps: warn }
        },
        Admission::DeferOccupied => Tick {
            spawned: None,
            verdict: Some(verdict),
            warn_low_fps: false,
        },
    }
}

/// The queue after a run of ticks without a purge: tick `i` receives
/// `arrivals[i]`, and admission is granted on it if `grants[i]`.
pub open spec fn run_queue(
    queue: Seq<DropCoin>,
    arrivals: Seq<Seq<DropCoin>>,
    grants: Seq<bool>,
) -> Seq<DropCoin>
    recommends
        arrivals.len() == grants.len(),
    decreases arrivals.len(),
{
    if arrivals.len() == 0 {
        queue
    } else {
        queue_after(
            run_queue(queue, arrivals.drop_last(), grants.drop_last()) + arrivals.last(),
            grants.last(),
        )
    }
}

/// The coins that such a run spawns, in the order of their ticks.
pub open spec fn run_spawned(
    queue: Seq<DropCoin>,
    arrivals: Seq<Seq<DropCoin>>,
    grants: Seq<bool>,
) -> Seq<DropCoin>
    recommends
        arrivals.len() == grants.len(),
    decreases arrivals.len(),
{
    if arrivals.len() == 0 {
        Seq::empty()
    } else {
        let earlier = run_spawned(queue, arrivals.drop_last(), grants.drop_last());
        let line = run_queue(queue, arrivals.drop_last(), grants.drop_last()) + arrivals.last();
        match spawned_by(line, grants.last()) {
            Some(coin) => earlier.push(coin),
            None => earlier,
        }
    }
}

/// All the requests of `arrivals`, in the order in which they arrived.
pub open spec fn joined(arrivals: Seq<Seq<DropCoin>>) -> Seq<DropCoin>
    decreases arrivals.len(),
{
    if arrivals.len() == 0 {
        Seq::empty()
    } else {
        joined(arrivals.drop_last()) + arrivals.last()
    }
}

/// `n` ticks on which nothing arrives.
pub open spec fn quiet(n: nat) -> Seq<Seq<DropCoin>> {
    Seq::new(n, |i: int| Seq::<DropCoin>::empty())
}

/// `n` ticks on each of which admission is `granted`.
pub open spec fn steady(n: nat, granted: bool) -> Seq<bool> {
    Seq::new(n, |i: int| granted)
}

/// Whatever is granted and whenever requests arrive, no request is lost,
/// doubled or moved: the coins spawned so far, followed by the queue, are
/// the first queue followed by all arrivals.
pub proof fn lemma_nothing_lost_or_reordered(
    queue: Seq<DropCoin>,
    arrivals: Seq<Seq<DropCoin>>,
    grants: Seq<bool>,
)
    requires
        arrivals.len() == grants.len(),
    ensures
        run_spawned(queue, arrivals, grants) + run_queue(queue, arrivals, grants) == queue + joined(
            arrivals,
        ),
    decreases arrivals.len(),
{
    if arrivals.len() == 0 {
        assert(Seq::<DropCoin>::empty() + queue =~= queue + Seq::<DropCoin>::empty());
    } else {
        let a = arrivals.drop_last();
        let g = grants.drop_last();
        lemma_nothing_lost_or_reordered(queue, a, g);
        let earlier = run_spawned(queue, a, g);
        let line = run_queue(queue, a, g) + arrivals.last();
        assert(earlier + line =~= (earlier + run_queue(queue, a, g)) + arrivals.last());
        assert((queue + joined(a)) + arrivals.last() =~= queue + joined(arrivals));
        if grants.last() && line.len() > 0 {
            assert(earlier.push(line[0]) + line.drop_first() =~= earlier + line);
        }
    }
}

/// A tick spawns at most one coin.
pub proof fn lemma_at_most_one_per_tick(
    queue: Seq<DropCoin>,
    arrivals: Seq<Seq<DropCoin>>,
    grants: Seq<bool>,
)
    requires
        arrivals.len() == grants.len(),
        arrivals.len() > 0,
    ensures
        run_spawned(queue, arrivals, grants).len() <= run_spawned(
            queue,
            arrivals.drop_last(),
            grants.drop_last(),
        ).len() + 1,
        run_spawned(queue, arrivals, grants).len() <= arrivals.len(),
    decreases arrivals.len(),
{
    if arrivals.len() > 1 {
        lemma_at_most_one_per_tick(queue, arrivals.drop_last(), grants.drop_last());
    }
}

/// While admission is deferred, nothing is spawned and the line only grows at its
/// back: the request that waited first still waits first.
pub proof fn lemma_deferred_requests_wait(queue: Seq<DropCoin>, arrivals: Seq<Seq<DropCoin>>)
    ensures
        run_spawned(queue, arrivals, steady(arrivals.len(), false)) == Seq::<DropCoin>::empty(),
        run_queue(queue, arrivals, steady(arrivals.len(), false)) == queue + joined(arrivals),
    decreases arrivals.len(),
{
    let n = arrivals.len();
    if n == 0 {
        assert(queue + Seq::<DropCoin>::empty() =~= queue);
    } else {
        lemma_deferred_requests_wait(queue, arrivals.drop_last());
        assert(steady(n, false).drop_last() =~= steady((n - 1) as nat, false));
        assert((queue + joined(arrivals.drop_last())) + arrivals.last() =~= queue + joined(
            arrivals,
        ));
    }
}

/// Denied for as long as `waiting` lasts and granted on the `n` quiet ticks
/// that follow, the line is served from its head, one request per tick:
/// after them the first `n` requests of the line have been spawned, in
/// their order, and the others are queued, in theirs.
pub proof fn lemma_denied_then_granted(
    queue: Seq<DropCoin>,
    waiting: Seq<Seq<DropCoin>>,
    n: nat,
)
    requires
        n <= (queue + joined(waiting)).len(),
    ensures
        ({
            let line = queue + joined(waiting);
            let arrivals = waiting + quiet(n);
            let grants = steady(waiting.len(), false) + steady(n, true);
            &&& run_spawned(queue, arrivals, grants) == line.take(n as int)
            &&& run_queue(queue, arrivals, grants) == line.skip(n as int)
        }),
    decreases n,
{
    let line = queue + joined(waiting);
    let arrivals = waiting + quiet(n);
    let grants = steady(waiting.len(), false) + steady(n, true);
    if n == 0 {
        lemma_deferred_requests_wait(queue, waiting);
        assert(arrivals =~= waiting);
        assert(grants =~= steady(waiting.len(), false));
        assert(line.take(0) =~= Seq::<DropCoin>::empty());
        assert(line.skip(0) =~= line);
    } else {
        let m = (n - 1) as nat;
        lemma_denied_then_granted(queue, waiting, m);
        assert(arrivals.drop_last() =~= waiting + quiet(m));
        assert(grants.drop_last() =~= steady(waiting.len(), false) + steady(m, true));
        assert(arrivals.last() =~= Seq::<DropCoin>::empty());
        assert(grants.last());
        let before = line.skip(m as int);
        assert(before + arrivals.last() =~= before);
        assert(before[0] == line[m as int]);
        assert(line.take(m as int).push(line[m as int]) =~= line.take(n as int));
        assert(before.drop_first() =~= line.skip(n as int));
    }
}

/// With admission always granted, `requests` that arrive together at an
/// empty queue are spawned one per tick, in the order in which they were
/// submitted: after `n` ticks the first `n` of them, and after as many ticks
/// as there are requests all of them, with nothing left in the queue.
pub proof fn lemma_granted_in_order(requests: Seq<DropCoin>, n: nat)
    requires
        1 <= n <= requests.len(),
    ensures
        ({
            let arrivals = seq![requests] + quiet((n - 1) as nat);
            let grants = steady(n, true);
            &&& run_spawned(Seq::empty(), arrivals, grants) == requests.take(n as int)
            &&& run_queue(Seq::empty(), arrivals, grants) == requests.skip(n as int)
            &&& n == requests.len() ==> run_spawned(Seq::empty(), arrivals, grants) == requests
            &&& n == requests.len() ==> run_queue(Seq::empty(), arrivals, grants)
                == Seq::<DropCoin>::empty()
        }),
    decreases n,
{
    let nothing = Seq::<DropCoin>::empty();
    let arrivals = seq![requests] + quiet((n - 1) as nat);
    let grants = steady(n, true);
    assert(grants.last());
    if n == 1 {
        assert(arrivals.drop_last() =~= Seq::<Seq<DropCoin>>::empty());
        assert(arrivals.last() == requests);
        assert(run_queue(nothing, arrivals.drop_last(), grants.drop_last()) == nothing);
        assert(run_spawned(nothing, arrivals.drop_last(), grants.drop_last()) == nothing);
        assert(nothing + requests =~= requests);
        assert(nothing.push(requests[0]) =~= requests.take(1));
        assert(requests.drop_first() =~= requests.skip(1));
    } else {
        let m = (n - 1) as nat;
        lemma_granted_in_order(requests, m);
        assert(arrivals.drop_last() =~= seq![requests] + quiet((m - 1) as nat));
        assert(grants.drop_last() =~= steady(m, true));
        assert(arrivals.last() =~= nothing);
        let before = requests.skip(m as int);
        assert(before + arrivals.last() =~= before);
        assert(before[0] == requests[m as int]);
        assert(requests.take(m as int).push(requests[m as int]) =~= requests.take(n as int));
        assert(before.drop_first() =~= requests.skip(n as int));
    }
    if n == requests.len() {
        assert(requests.take(n as int) =~= requests);
        assert(requests.skip(n as int) =~= nothing);
    }
}

/// A purge removes the automatic requests, all of them and nothing else:
/// what stays is manual, and every manual request stays, as often as it was
/// queued and in the same order.
pub proof fn lemma_purge_keeps_manual(queue: Seq<DropCoin>)
    ensures
        forall|i: int|
            0 <= i < without_auto(queue).len() ==> (#[trigger] without_auto(queue)[i]).reason
                == CoinDropReason::Manual,
        without_auto(without_auto(queue)) == without_auto(queue),
        (forall|i: int| 0 <= i < queue.len() ==> (#[trigger] queue[i]).reason
            == CoinDropReason::Manual) ==> without_auto(queue) == queue,
    decreases queue.len(),
{
    let keep = |r: DropCoin| r.reason != CoinDropReason::Auto;
    reveal(Seq::filter);
    if queue.len() > 0 {
        lemma_purge_keeps_manual(queue.drop_last());
        let rest = queue.drop_last();
        let kept = rest.filter(keep);
        if keep(queue.last()) {
            kept.lemma_filter_push(queue.last(), keep);
            if forall|i: int| 0 <= i < queue.len() ==> (#[trigger] queue[i]).reason
                == CoinDropReason::Manual {
                assert(forall|i: int| 0 <= i < rest.len() ==> (#[trigger] rest[i]).reason
                    == CoinDropReason::Manual) by {
                    assert forall|i: int| 0 <= i < rest.len() implies (#[trigger] rest[i]).reason
                        == CoinDropReason::Manual by {
                        assert(rest[i] == queue[i]);
                    }
                }
                assert(rest.push(queue.last()) =~= queue);
            }
        } else {
            assert(queue[queue.len() - 1].reason != CoinDropReason::Manual);
        }
    }
}

/// How many coins are in the machine.
#[derive(Debug, Copy, Clone, PartialEq, Eq)]
pub struct CoinCount(pub usize);

impl Default for CoinCount {
    fn default() -> (c: Self)
        ensures
            c.0 == 0,
    {
        CoinCount(0)
    }
}

/// Counts a coin that has entered the machine.
pub fn increment_coin_count(count: &mut CoinCount)
    requires
        old(count).0 < usize::MAX,
    ensures
        final(count).0 == old(count).0 + 1,
{
    count.0 = count.0 + 1;
}

/// Counts a coin that has left the machine.
pub fn decrement_coin_count(count: &mut CoinCount)
    requires
        old(count).0 > 0,
    ensures
        final(count).0 == old(count).0 - 1,
{
    count.0 = count.0 - 1;
}

} // verus!
