//! Head-drop CoDel: when to drop the head of a queue that has stood too long.
use vstd::prelude::*;

use crate::config::DatagramAqmConfig;
use crate::time::{elapsed, Duration, Instant};

verus! {

/// Backlog at or below which the AQM never drops (about two full datagrams)
///
/// RFC 8289's "one MTU" floor: a nearly-drained queue is proof the link is
/// keeping up, and dropping the last packets in flight would only starve it.
pub const CODEL_MIN_BACKLOG: usize = 3000;

/// Head-drop CoDel controller state (RFC 8289) for the outgoing datagram queue
///
/// Distilled to the dequeue-time decision: the caller pops the head, asks
/// [`Self::should_drop`], and either transmits or discards it. Dropping starts
/// only after the sojourn time has stayed above target for a whole interval,
/// then escalates as `interval / sqrt(count)` until the queue drains below
/// target, which bounds queue latency at any link speed without rate tuning.
#[derive(Debug, Clone, Copy)]
pub struct CodelState {
    /// When the sojourn time first rose above target, plus one interval
    pub first_above_time: Option<Instant>,
    /// Scheduled time of the next drop while in the dropping state
    pub drop_next: Option<Instant>,
    /// Drops in the current dropping episode (sets the escalation rate)
    pub count: u64,
    pub dropping: bool,
}

/// A [`CodelState`] with unbounded numbers
pub ghost struct CodelModel {
    pub first_above: Option<int>,
    pub drop_next: Option<int>,
    pub count: int,
    pub dropping: bool,
}

/// A moment, if there is one, as a number
pub open spec fn moment(t: Option<Instant>) -> Option<int> {
    match t {
        Some(t) => Some(t@),
        None => None,
    }
}

impl View for CodelState {
    type V = CodelModel;

    open spec fn view(&self) -> CodelModel {
        CodelModel {
            first_above: moment(self.first_above_time),
            drop_next: moment(self.drop_next),
            count: self.count as int,
            dropping: self.dropping,
        }
    }
}

/// The controller of a queue that has seen no traffic yet
pub open spec fn codel_initial() -> CodelModel {
    CodelModel { first_above: None, drop_next: None, count: 0, dropping: false }
}

/// Whether `r` is the whole number nearest to `interval / sqrt(count)`, the
/// larger of two: `r - 1/2 <= interval / sqrt(count) < r + 1/2`
pub open spec fn is_nearest_backoff(interval: int, count: int, r: int) -> bool {
    &&& 0 <= r
    &&& r > 0 ==> (2 * r - 1) * (2 * r - 1) * count <= 4 * (interval * interval)
    &&& 4 * (interval * interval) < (2 * r + 1) * (2 * r + 1) * count
}

/// The drop-rate control law: `interval / sqrt(count)`, to the nearest nanosecond
pub open spec fn control_law(interval: int, count: int) -> int {
    choose|r: int| is_nearest_backoff(interval, count, r)
}

/// Whether the queue's latency is under control at a dequeue
pub open spec fn codel_calm(sojourn: int, backlog: int, config: DatagramAqmConfig) -> bool {
    sojourn < config.target@ || backlog <= CODEL_MIN_BACKLOG
}

/// The drop count that a new dropping episode starts from: the previous
/// episode's, less two, where that one's next drop was due less than sixteen
/// intervals ago
pub open spec fn codel_episode_count(c: CodelModel, now: int, config: DatagramAqmConfig) -> int {
    match c.drop_next {
        Some(last) => if elapsed(last, now) < 16 * config.interval@ && c.count > 3 {
            c.count - 2
        } else {
            1
        },
        None => 1,
    }
}

/// The decision at a dequeue, `true` to drop the head, and the controller after it
///
/// `first_above` is the end of the grace period that runs while latency is
/// above target. Outside an episode the head is dropped once that is over, and
/// an episode begins; within one it is dropped whenever the next drop is due.
pub open spec fn codel_decision(
    c: CodelModel,
    sojourn: int,
    backlog: int,
    now: int,
    config: DatagramAqmConfig,
) -> (bool, CodelModel) {
    if codel_calm(sojourn, backlog, config) {
        (false, CodelModel { first_above: None, dropping: false, ..c })
    } else {
        let first_above = match c.first_above {
            Some(t) => t,
            None => now + config.interval@,
        };
        let waiting = CodelModel { first_above: Some(first_above), ..c };
        if c.dropping {
            if c.drop_next is Some && now >= c.drop_next->0 {
                let count = c.count + 1;
                (
                    true,
                    CodelModel {
                        count,
                        drop_next: Some(c.drop_next->0 + control_law(config.interval@, count)),
                        ..waiting
                    },
                )
            } else {
                (false, waiting)
            }
        } else if now >= first_above {
            let count = codel_episode_count(c, now, config);
            (
                true,
                CodelModel {
                    count,
                    dropping: true,
                    drop_next: Some(now + control_law(config.interval@, count)),
                    ..waiting
                },
            )
        } else {
            (false, waiting)
        }
    }
}

impl Default for CodelState {
    /// The controller of a queue that has seen no traffic yet
    fn default() -> (codel: Self)
        ensures
            codel@ == codel_initial(),
    {
        CodelState { first_above_time: None, drop_next: None, count: 0, dropping: false }
    }
}

impl CodelState {
    /// Dequeue-time decision for the queue head: `true` = drop it
    ///
    /// `sojourn` is how long the head waited in the buffer and `backlog` the
    /// queue's byte size before popping it.
    pub fn should_drop(
        &mut self,
        sojourn: Duration,
        backlog: usize,
        now: Instant,
        config: &DatagramAqmConfig,
    ) -> (drop: bool)
        requires
            now@ + config.interval@ <= u64::MAX,
            old(self).dropping ==> old(self).count < u64::MAX,
        ensures
            (drop, final(self)@) == codel_decision(
                old(self)@,
                sojourn@,
                backlog as int,
                now@,
                *config,
            ),
            sojourn.nanos < config.target.nanos || backlog <= 3000 ==> {
                &&& !drop
                &&& final(self).first_above_time is None
                &&& !final(self).dropping
                &&& final(self).count == old(self).count
                &&& final(self).drop_next == old(self).drop_next
            },
            sojourn.nanos >= config.target.nanos && backlog > 3000 ==> {
                let grace_end: int = match old(self).first_above_time {
                    Some(t) => t.nanos as int,
                    None => now.nanos + config.interval.nanos,
                };
                &&& final(self).first_above_time is Some
                &&& final(self).first_above_time->0.nanos == grace_end
                &&& old(self).dropping ==> final(self).dropping
                &&& old(self).dropping && old(self).drop_next is Some ==> (drop <==> now.nanos
                    >= old(self).drop_next->0.nanos)
                &&& old(self).dropping && drop ==> final(self).count == old(self).count + 1
                &&& !old(self).dropping ==> (drop <==> now.nanos >= grace_end)
                &&& !old(self).dropping ==> final(self).dropping == drop
                &&& !drop ==> final(self).count == old(self).count && final(self).drop_next
                    == old(self).drop_next
                &&& drop ==> final(self).drop_next is Some
                &&& drop && old(self).dropping ==> final(self).drop_next->0.nanos == old(
                    self,
                ).drop_next->0.nanos + control_law(
                    config.interval.nanos as int,
                    final(self).count as int,
                )
                &&& drop && !old(self).dropping ==> final(self).drop_next->0.nanos == now.nanos
                    + control_law(config.interval.nanos as int, final(self).count as int)
                &&& drop && !old(self).dropping ==> final(self).count == if old(
                    self,
                ).drop_next is Some && config.interval.nanos > 0 && now.nanos < old(
                    self,
                ).drop_next->0.nanos + 16 * config.interval.nanos && old(self).count >= 3 {
                    old(self).count - 2
                } else {
                    1
                }
            },
    {
        if sojourn.nanos < config.target.nanos || backlog <= CODEL_MIN_BACKLOG {
            // Queue latency is under control: leave the dropping state.
            self.first_above_time = None;
            self.dropping = false;
            return false;
        }
        let first_above: Instant = match self.first_above_time {
            Some(t) => t,
            None => now.after(config.interval),
        };
        self.first_above_time = Some(first_above);
        if self.dropping {
            match self.drop_next {
                Some(due) => {
                    if now.nanos >= due.nanos {
                        self.count = self.count + 1;
                        let wait: Duration = Self::backoff(config.interval, self.count);
                        self.drop_next = Some(due.after(wait));
                        true
                    } else {
                        false
                    }
                },
                None => false,
            }
        } else if now.nanos >= first_above.nanos {
            // Sojourn stayed above target for a full interval: start dropping.
            // Re-entering shortly after an episode resumes the previous drop
            // rate instead of restarting the slow ramp (RFC 8289 section 5.4:
            // a standing queue that comes right back is the same overload).
            self.count = match self.drop_next {
                Some(last) => {
                    let since: Duration = now.saturating_duration_since(last);
                    if (since.nanos as u128) < 16 * (config.interval.nanos as u128) && self.count
                        > 3 {
                        self.count - 2
                    } else {
                        1
                    }
                },
                None => 1,
            };
            self.dropping = true;
            let wait: Duration = Self::backoff(config.interval, self.count);
            self.drop_next = Some(now.after(wait));
            true
        } else {
            false
        }
    }

    /// The drop-rate control law: drops accelerate as the square root of the
    /// episode's drop count, per RFC 8289.
    pub fn backoff(interval: Duration, count: u64) -> (wait: Duration)
        requires
            count > 0,
        ensures
            is_nearest_backoff(interval@, count as int, wait@),
            wait.nanos > 0 ==> (2 * wait.nanos - 1) * (2 * wait.nanos - 1) * count <= 4 * (
            interval.nanos * interval.nanos),
            4 * (interval.nanos * interval.nanos) < (2 * wait.nanos + 1) * (2 * wait.nanos + 1)
                * count,
            wait@ == control_law(interval@, count as int),
            wait@ <= interval@,
    {
        let i: u128 = interval.nanos as u128;
        let c: u128 = count as u128;
        proof {
            lemma_product_fits(interval.nanos, interval.nanos);
        }
        let square: u128 = i * i;
        let root: u64 = isqrt(square / c);
        let r: u128 = root as u128;
        proof {
            lemma_root_of_quotient(square as int, c as int, r as int);
            lemma_product_fits(root, root);
            lemma_product_fits(root, count);
        }
        // How far the square lies above that of the whole root decides the rounding.
        let rest: u128 = square - r * r * c;
        let up: bool = rest >= r * c && rest - r * c >= (c + 3) / 4;
        proof {
            lemma_rounded_root(i as int, c as int, r as int, up);
        }
        let wait: u64 = if up {
            root + 1
        } else {
            root
        };
        proof {
            lemma_backoff_unique(i as int, c as int, wait as int);
        }
        Duration { nanos: wait }
    }
}

proof fn lemma_product_fits(a: u64, b: u64)
    ensures
        0 <= a * b <= u128::MAX,
{
    assert(0 <= a * b <= 0xffff_ffff_ffff_ffff * 0xffff_ffff_ffff_ffff) by (nonlinear_arith)
        requires
            0 <= a <= 0xffff_ffff_ffff_ffff,
            0 <= b <= 0xffff_ffff_ffff_ffff,
    ;
}

/// The largest whole number whose square is at most `n`
fn isqrt(n: u128) -> (root: u64)
    ensures
        root * root <= n < (root + 1) * (root + 1),
{
    let mut low: u128 = 0;
    let mut high: u128 = 0x1_0000_0000_0000_0000;
    assert(n < high * high) by {
        assert(high * high == 0x1_0000_0000_0000_0000_0000_0000_0000_0000int) by (nonlinear_arith)
            requires
                high == 0x1_0000_0000_0000_0000,
        ;
    }
    while high - low > 1
        invariant
            low < high <= 0x1_0000_0000_0000_0000,
            low * low <= n < high * high,
        decreases high - low,
    {
        let mid: u128 = low + (high - low) / 2;
        proof {
            lemma_product_fits(mid as u64, mid as u64);
        }
        if mid * mid <= n {
            low = mid;
        } else {
            high = mid;
        }
    }
    assert(high == low + 1);
    low as u64
}

proof fn lemma_root_of_quotient(n: int, c: int, r: int)
    requires
        c > 0,
        n >= 0,
        r >= 0,
        r * r <= n / c < (r + 1) * (r + 1),
    ensures
        0 <= r * r * c <= n < (r + 1) * (r + 1) * c,
{
    let q = n / c;
    vstd::arithmetic::div_mod::lemma_fundamental_div_mod(n, c);
    assert(r * r * c <= q * c) by (nonlinear_arith)
        requires
            r * r <= q,
            c > 0,
    ;
    assert((q + 1) * c <= (r + 1) * (r + 1) * c) by (nonlinear_arith)
        requires
            q + 1 <= (r + 1) * (r + 1),
            c > 0,
    ;
    assert(q * c == c * q && (q + 1) * c == c * q + c) by (nonlinear_arith);
    assert(0 <= r * r * c) by (nonlinear_arith)
        requires
            r >= 0,
            c > 0,
    ;
}

/// Rounding `i / sqrt(c)`, whose whole part is `r`
proof fn lemma_rounded_root(i: int, c: int, r: int, up: bool)
    requires
        i >= 0,
        c > 0,
        r >= 0,
        r * r * c <= i * i < (r + 1) * (r + 1) * c,
        up == (i * i - r * r * c >= r * c && i * i - r * r * c - r * c >= (c + 3) / 4),
    ensures
        up ==> is_nearest_backoff(i, c, r + 1) && r + 1 <= i,
        !up ==> is_nearest_backoff(i, c, r) && r <= i,
{
    let square = i * i;
    let whole = r * r * c;
    let linear = r * c;
    assert((2 * r + 1) * (2 * r + 1) * c == 4 * whole + 4 * linear + c) by (nonlinear_arith)
        requires
            whole == r * r * c,
            linear == r * c,
    ;
    assert(0 <= linear) by (nonlinear_arith)
        requires
            r >= 0,
            c > 0,
            linear == r * c,
    ;
    assert(up <==> (2 * r + 1) * (2 * r + 1) * c <= 4 * square);
    if up {
        assert((2 * r + 3) * (2 * r + 3) * c == 4 * ((r + 1) * (r + 1) * c) + 4 * linear + 5 * c)
            by (nonlinear_arith)
            requires
                linear == r * c,
        ;
        assert(r + 1 <= i) by (nonlinear_arith)
            requires
                (2 * r + 1) * (2 * r + 1) * c <= 4 * (i * i),
                c >= 1,
                r >= 0,
                i >= 0,
        ;
    } else {
        assert((2 * r - 1) * (2 * r - 1) * c == 4 * whole - 4 * linear + c) by (nonlinear_arith)
            requires
                whole == r * r * c,
                linear == r * c,
        ;
        if r > 0 {
            assert(linear >= c) by (nonlinear_arith)
                requires
                    r > 0,
                    c > 0,
                    linear == r * c,
            ;
        }
        assert(r <= i) by (nonlinear_arith)
            requires
                r * r * c <= i * i,
                c >= 1,
                r >= 0,
                i >= 0,
        ;
    }
}

/// At most one whole number is nearest to `interval / sqrt(count)`, so the
/// control law is that number.
pub proof fn lemma_backoff_unique(interval: int, count: int, r: int)
    requires
        count > 0,
        is_nearest_backoff(interval, count, r),
    ensures
        control_law(interval, count) == r,
{
    let s = control_law(interval, count);
    assert(is_nearest_backoff(interval, count, s));
    lemma_backoff_ordered(interval, count, r, s);
    lemma_backoff_ordered(interval, count, s, r);
}

proof fn lemma_backoff_ordered(interval: int, count: int, r: int, s: int)
    requires
        count > 0,
        is_nearest_backoff(interval, count, r),
        is_nearest_backoff(interval, count, s),
    ensures
        s <= r,
{
    if s > r {
        assert((2 * r + 1) * (2 * r + 1) * count <= (2 * s - 1) * (2 * s - 1) * count)
            by (nonlinear_arith)
            requires
                s > r,
                r >= 0,
                count > 0,
        ;
    }
}

proof fn lemma_backoff_search(interval: int, count: int, r: int)
    requires
        count > 0,
        r >= 0,
        4 * (interval * interval) < (2 * r + 1) * (2 * r + 1) * count,
    ensures
        exists|x: int| is_nearest_backoff(interval, count, x),
    decreases r,
{
    if r > 0 && (2 * r - 1) * (2 * r - 1) * count > 4 * (interval * interval) {
        assert(2 * (r - 1) + 1 == 2 * r - 1);
        lemma_backoff_search(interval, count, r - 1);
    } else {
        assert(is_nearest_backoff(interval, count, r));
    }
}

/// The control law is defined: some whole number is nearest to `interval / sqrt(count)`.
pub proof fn lemma_backoff_defined(interval: int, count: int)
    requires
        interval >= 0,
        count > 0,
    ensures
        is_nearest_backoff(interval, count, control_law(interval, count)),
{
    assert(4 * (interval * interval) < (2 * interval + 1) * (2 * interval + 1) * count)
        by (nonlinear_arith)
        requires
            interval >= 0,
            count > 0,
    ;
    lemma_backoff_search(interval, count, interval);
}

/// Drops escalate: the more an episode has dropped, the sooner the next drop is
/// due. The first wait is the whole interval.
pub proof fn law_backoff_escalates(interval: int, count: int, later: int)
    requires
        interval >= 0,
        0 < count <= later,
    ensures
        0 <= control_law(interval, later) <= control_law(interval, count) <= interval,
        control_law(interval, 1) == interval,
{
    lemma_backoff_defined(interval, count);
    lemma_backoff_defined(interval, later);
    let r = control_law(interval, count);
    let s = control_law(interval, later);
    if s > r {
        assert((2 * r + 1) * (2 * r + 1) * count <= (2 * s - 1) * (2 * s - 1) * later)
            by (nonlinear_arith)
            requires
                s > r,
                r >= 0,
                0 < count <= later,
        ;
    }
    if r > interval {
        assert(4 * (interval * interval) < (2 * r - 1) * (2 * r - 1) * count) by (nonlinear_arith)
            requires
                r > interval,
                interval >= 0,
                count >= 1,
        ;
    }
    assert(is_nearest_backoff(interval, 1, interval)) by {
        assert(interval > 0 ==> (2 * interval - 1) * (2 * interval - 1) * 1 <= 4 * (interval
            * interval)) by (nonlinear_arith);
        assert(4 * (interval * interval) < (2 * interval + 1) * (2 * interval + 1) * 1)
            by (nonlinear_arith)
            requires
                interval >= 0,
        ;
    }
    lemma_backoff_unique(interval, 1, interval);
}

/// While latency is under control, or next to nothing is queued, nothing is
/// dropped, and a dropping episode ends.
pub proof fn law_calm_queue_is_not_dropped(
    c: CodelModel,
    sojourn: int,
    backlog: int,
    now: int,
    config: DatagramAqmConfig,
)
    requires
        sojourn < config.target@ || backlog <= CODEL_MIN_BACKLOG,
    ensures
        ({
            let (drop, after) = codel_decision(c, sojourn, backlog, now, config);
            &&& !drop
            &&& !after.dropping
            &&& after.first_above is None
        }),
{
}

/// Within an episode each drop is followed by a shorter wait than the one before it.
pub proof fn law_drops_come_faster(
    c: CodelModel,
    sojourn: int,
    backlog: int,
    now: int,
    config: DatagramAqmConfig,
)
    requires
        c.dropping,
        c.drop_next is Some,
        c.count > 0,
        codel_decision(c, sojourn, backlog, now, config).0,
    ensures
        ({
            let after = codel_decision(c, sojourn, backlog, now, config).1;
            &&& after.dropping
            &&& after.count == c.count + 1
            &&& now >= c.drop_next->0
            &&& after.drop_next is Some
            &&& after.drop_next->0 - c.drop_next->0 == control_law(config.interval@, c.count + 1)
            &&& control_law(config.interval@, c.count + 1) <= control_law(
                config.interval@,
                c.count,
            )
        }),
{
    law_backoff_escalates(config.interval@, c.count, c.count + 1);
}

/// What a controller is asked at one dequeue
pub ghost struct Dequeue {
    pub sojourn: int,
    pub backlog: int,
    pub now: int,
}

/// The controller after a run of dequeues that began at `c`
pub open spec fn codel_after(
    c: CodelModel,
    dequeues: Seq<Dequeue>,
    config: DatagramAqmConfig,
) -> CodelModel
    decreases dequeues.len(),
{
    if dequeues.len() == 0 {
        c
    } else {
        let d = dequeues.last();
        codel_decision(
            codel_after(c, dequeues.drop_last(), config),
            d.sojourn,
            d.backlog,
            d.now,
            config,
        ).1
    }
}

/// Whether the last of a run of dequeues that began at `c` drops its head
pub open spec fn codel_drops(
    c: CodelModel,
    dequeues: Seq<Dequeue>,
    config: DatagramAqmConfig,
) -> bool {
    let d = dequeues.last();
    codel_decision(
        codel_after(c, dequeues.drop_last(), config),
        d.sojourn,
        d.backlog,
        d.now,
        config,
    ).0
}

/// Whether latency was above target at the dequeue `j` and at every later one
pub open spec fn above_target_since(
    dequeues: Seq<Dequeue>,
    j: int,
    config: DatagramAqmConfig,
) -> bool {
    &&& 0 <= j < dequeues.len()
    &&& forall|i: int|
        j <= i < dequeues.len() ==> !codel_calm(
            (#[trigger] dequeues[i]).sojourn,
            dequeues[i].backlog,
            config,
        )
}

/// Whether the grace period that the controller waits out began at a dequeue
/// since which latency has stayed above target
spec fn grace_explained(c: CodelModel, dequeues: Seq<Dequeue>, config: DatagramAqmConfig) -> bool {
    &&& c.first_above matches Some(t) ==> exists|j: int| #[trigger]
        above_target_since(dequeues, j, config) && t == dequeues[j].now + config.interval@
    &&& c.dropping ==> {
        &&& c.first_above is Some
        &&& c.drop_next is Some
        &&& c.drop_next->0 >= c.first_above->0
        &&& c.count > 0
    }
    &&& c.count >= 0
}

proof fn lemma_grace_explained(dequeues: Seq<Dequeue>, config: DatagramAqmConfig)
    ensures
        grace_explained(codel_after(codel_initial(), dequeues, config), dequeues, config),
        dequeues.len() > 0 && codel_drops(codel_initial(), dequeues, config) ==> {
            &&& codel_after(codel_initial(), dequeues, config).first_above is Some
            &&& codel_after(codel_initial(), dequeues, config).first_above->0 <= dequeues.last().now
        },
    decreases dequeues.len(),
{
    if dequeues.len() > 0 {
        let before = dequeues.drop_last();
        let d = dequeues.last();
        lemma_grace_explained(before, config);
        let c = codel_after(codel_initial(), before, config);
        let after = codel_after(codel_initial(), dequeues, config);
        if !codel_calm(d.sojourn, d.backlog, config) {
            match c.first_above {
                Some(t) => {
                    let j = choose|j: int| #[trigger]
                        above_target_since(before, j, config) && t == before[j].now
                            + config.interval@;
                    assert forall|i: int| j <= i < dequeues.len() implies !codel_calm(
                        (#[trigger] dequeues[i]).sojourn,
                        dequeues[i].backlog,
                        config,
                    ) by {
                        if i < before.len() {
                            assert(before[i] == dequeues[i]);
                        }
                    }
                    assert(above_target_since(dequeues, j, config));
                    assert(dequeues[j] == before[j]);
                },
                None => {
                    assert(above_target_since(dequeues, dequeues.len() - 1, config));
                },
            }
            if after.count > 0 {
                lemma_backoff_defined(config.interval@, after.count);
            }
        }
    }
}

/// A drop always comes after latency has stayed above target for a whole
/// interval: at some earlier dequeue, an interval or more before, it was above
/// target, and so it was at every dequeue since.
pub proof fn law_drop_waits_out_an_interval(dequeues: Seq<Dequeue>, config: DatagramAqmConfig)
    requires
        dequeues.len() > 0,
        codel_drops(codel_initial(), dequeues, config),
    ensures
        exists|j: int|
            {
                &&& #[trigger] above_target_since(dequeues, j, config)
                &&& dequeues[j].now + config.interval@ <= dequeues.last().now
            },
{
    lemma_grace_explained(dequeues, config);
}

/// An episode runs only while a grace period does: a controller that has none
/// running is not dropping.
pub proof fn law_episode_needs_a_grace_period(dequeues: Seq<Dequeue>, config: DatagramAqmConfig)
    ensures
        codel_after(codel_initial(), dequeues, config).dropping ==> codel_after(
            codel_initial(),
            dequeues,
            config,
        ).first_above is Some,
{
    lemma_grace_explained(dequeues, config);
}

proof fn lemma_grace_runs(c: CodelModel, dequeues: Seq<Dequeue>, config: DatagramAqmConfig)
    requires
        c.first_above is None,
        !c.dropping,
        above_target_since(dequeues, 0, config),
        forall|i: int|
            0 <= i < dequeues.len() ==> (#[trigger] dequeues[i]).now < dequeues[0].now
                + config.interval@,
    ensures
        codel_after(c, dequeues, config).first_above == Some(dequeues[0].now + config.interval@),
        !codel_after(c, dequeues, config).dropping,
        !codel_drops(c, dequeues, config),
    decreases dequeues.len(),
{
    let before = dequeues.drop_last();
    assert(!codel_calm(dequeues.last().sojourn, dequeues.last().backlog, config));
    if before.len() > 0 {
        assert(forall|i: int| 0 <= i < before.len() ==> before[i] == #[trigger] dequeues[i]);
        lemma_grace_runs(c, before, config);
    } else {
        assert(codel_after(c, before, config) == c);
    }
}

/// A standing queue is dropped. From a controller without a running grace period,
/// while latency is above target at every dequeue, nothing is dropped before an
/// interval has passed since the first of them, and the first dequeue at or after
/// that point is dropped and begins an episode.
pub proof fn law_standing_queue_is_dropped(
    c: CodelModel,
    dequeues: Seq<Dequeue>,
    config: DatagramAqmConfig,
)
    requires
        c.first_above is None,
        !c.dropping,
        above_target_since(dequeues, 0, config),
        forall|i: int|
            0 <= i < dequeues.len() - 1 ==> (#[trigger] dequeues[i]).now < dequeues[0].now
                + config.interval@,
        dequeues.last().now >= dequeues[0].now + config.interval@,
    ensures
        forall|k: int|
            0 < k < dequeues.len() ==> {
                &&& !codel_drops(c, #[trigger] dequeues.take(k), config)
                &&& !codel_after(c, dequeues.take(k), config).dropping
            },
        codel_drops(c, dequeues, config),
        codel_after(c, dequeues, config).dropping,
{
    assert forall|k: int| 0 < k < dequeues.len() implies {
        &&& !codel_drops(c, #[trigger] dequeues.take(k), config)
        &&& !codel_after(c, dequeues.take(k), config).dropping
    } by {
        let early = dequeues.take(k);
        assert(forall|i: int| 0 <= i < k ==> early[i] == #[trigger] dequeues[i]);
        lemma_grace_runs(c, early, config);
    }
    let before = dequeues.drop_last();
    assert(!codel_calm(dequeues.last().sojourn, dequeues.last().backlog, config));
    if before.len() > 0 {
        assert(forall|i: int| 0 <= i < before.len() ==> before[i] == #[trigger] dequeues[i]);
        lemma_grace_runs(c, before, config);
    } else {
        assert(codel_after(c, before, config) == c);
    }
}

/// The model of a controller is the controller, field by field.
pub proof fn law_controller_model_is_faithful(codel: CodelState)
    ensures
        codel@.dropping == codel.dropping,
        codel@.count == codel.count,
        codel@.first_above is Some <==> codel.first_above_time is Some,
        codel@.first_above matches Some(t) ==> t == codel.first_above_time->0.nanos,
        codel@.drop_next is Some <==> codel.drop_next is Some,
        codel@.drop_next matches Some(t) ==> t == codel.drop_next->0.nanos,
        codel_initial().first_above is None,
        codel_initial().drop_next is None,
        codel_initial().count == 0,
        !codel_initial().dropping,
{
}

/// The wait between drops is `interval / sqrt(count)` to the nearest whole number,
/// upwards where two are as near: twice the wait, one more and one less, enclose
/// twice that value.
pub proof fn law_wait_is_interval_over_root(interval: int, count: int)
    requires
        interval >= 0,
        count > 0,
    ensures
        ({
            let wait = control_law(interval, count);
            &&& wait >= 0
            &&& wait > 0 ==> (2 * wait - 1) * (2 * wait - 1) * count <= 4 * (interval * interval)
            &&& 4 * (interval * interval) < (2 * wait + 1) * (2 * wait + 1) * count
        }),
{
    lemma_backoff_defined(interval, count);
}

/// Where the drop count is a square whose root divides the interval, the wait is
/// the quotient: the fourth drop of an episode is followed by half an interval.
pub proof fn law_square_counts_divide_the_interval(wait: int, root: int)
    requires
        wait >= 0,
        root > 0,
    ensures
        control_law(wait * root, root * root) == wait,
{
    let interval = wait * root;
    let count = root * root;
    assert(interval >= 0 && count > 0) by (nonlinear_arith)
        requires
            interval == wait * root,
            count == root * root,
            wait >= 0,
            root > 0,
    ;
    assert(4 * (interval * interval) == (2 * wait) * (2 * wait) * count) by (nonlinear_arith)
        requires
            interval == wait * root,
            count == root * root,
    ;
    assert((2 * wait - 1) * (2 * wait - 1) * count <= (2 * wait) * (2 * wait) * count || wait == 0)
        by (nonlinear_arith)
        requires
            wait >= 0,
            count > 0,
    ;
    assert((2 * wait) * (2 * wait) * count < (2 * wait + 1) * (2 * wait + 1) * count)
        by (nonlinear_arith)
        requires
            wait >= 0,
            count > 0,
    ;
    assert(is_nearest_backoff(interval, count, wait));
    lemma_backoff_unique(interval, count, wait);
}

/// An episode does not tire: while latency is above target, a head is dropped
/// exactly when the next drop is due, however many went before. Each drop counts
/// one more and schedules the next from the time at which it was due.
pub proof fn law_due_drop_is_made(
    c: CodelModel,
    sojourn: int,
    backlog: int,
    now: int,
    config: DatagramAqmConfig,
)
    requires
        c.dropping,
        c.drop_next is Some,
        sojourn >= config.target@,
        backlog > 3000,
    ensures
        ({
            let (drop, after) = codel_decision(c, sojourn, backlog, now, config);
            let due = c.drop_next->0;
            &&& drop <==> now >= due
            &&& after.dropping
            &&& drop ==> after.count == c.count + 1 && after.drop_next == Some(
                due + control_law(config.interval@, c.count + 1),
            )
            &&& !drop ==> after.count == c.count && after.drop_next == Some(due)
            &&& c.first_above is Some ==> after.first_above == c.first_above
        }),
{
}

/// An episode begins when the grace period is over, and not before: outside one,
/// while latency is above target, a head is dropped exactly when an interval has
/// passed since the grace period began, which is now where none was running.
pub proof fn law_episode_begins_after_the_grace_period(
    c: CodelModel,
    sojourn: int,
    backlog: int,
    now: int,
    config: DatagramAqmConfig,
)
    requires
        !c.dropping,
        sojourn >= config.target@,
        backlog > 3000,
    ensures
        ({
            let (drop, after) = codel_decision(c, sojourn, backlog, now, config);
            &&& c.first_above is None ==> after.first_above == Some(now + config.interval@)
            &&& c.first_above is Some ==> after.first_above == c.first_above
            &&& drop <==> now >= after.first_above->0
            &&& after.dropping == drop
            &&& !drop ==> after.count == c.count && after.drop_next == c.drop_next
            &&& drop ==> after.count >= 1 && after.drop_next == Some(
                now + control_law(config.interval@, after.count),
            )
        }),
{
}

/// A queue that comes right back takes up its drop rate, two drops behind: so it
/// does within sixteen intervals after the drop that was due next. Any other
/// episode starts from the first drop.
pub proof fn law_recent_episode_is_resumed(
    c: CodelModel,
    sojourn: int,
    backlog: int,
    now: int,
    config: DatagramAqmConfig,
)
    requires
        !c.dropping,
        codel_decision(c, sojourn, backlog, now, config).0,
    ensures
        ({
            let after = codel_decision(c, sojourn, backlog, now, config).1;
            let recent = c.drop_next is Some && config.interval@ > 0 && now < c.drop_next->0 + 16
                * config.interval@;
            &&& recent && c.count >= 3 ==> after.count == c.count - 2
            &&& recent && c.count < 3 ==> after.count == 1
            &&& !recent ==> after.count == 1
        }),
{
}

/// A calm dequeue ends the episode and the grace period, and keeps what an
/// episode to come may take up: the drop count and when a drop would have been due.
pub proof fn law_calm_dequeue_keeps_the_rate(
    c: CodelModel,
    sojourn: int,
    backlog: int,
    now: int,
    config: DatagramAqmConfig,
)
    requires
        sojourn < config.target@ || backlog <= 3000,
    ensures
        codel_decision(c, sojourn, backlog, now, config) == (
            false,
            CodelModel {
                first_above: None,
                drop_next: c.drop_next,
                count: c.count,
                dropping: false,
            },
        ),
{
}

/// The controller after a first dequeue and then the others
pub proof fn lemma_codel_after_first(
    c: CodelModel,
    first: Dequeue,
    rest: Seq<Dequeue>,
    config: DatagramAqmConfig,
)
    ensures
        codel_after(c, seq![first] + rest, config) == codel_after(
            codel_decision(c, first.sojourn, first.backlog, first.now, config).1,
            rest,
            config,
        ),
        rest.len() > 0 ==> codel_drops(c, seq![first] + rest, config) == codel_drops(
            codel_decision(c, first.sojourn, first.backlog, first.now, config).1,
            rest,
            config,
        ),
        rest.len() == 0 ==> codel_drops(c, seq![first] + rest, config) == codel_decision(
            c,
            first.sojourn,
            first.backlog,
            first.now,
            config,
        ).0,
    decreases rest.len(),
{
    let all = seq![first] + rest;
    if rest.len() == 0 {
        assert(all =~= seq![first]);
        assert(all.drop_last() =~= Seq::<Dequeue>::empty());
        reveal_with_fuel(codel_after, 2);
    } else {
        assert(all.drop_last() =~= seq![first] + rest.drop_last());
        assert(all.last() == rest.last());
        lemma_codel_after_first(c, first, rest.drop_last(), config);
    }
}

/// A standing queue keeps being dropped: as long as latency is above target at
/// every dequeue an episode goes on, and each dequeue that finds the next drop due
/// makes it.
pub proof fn law_standing_queue_keeps_being_dropped(
    c: CodelModel,
    dequeues: Seq<Dequeue>,
    config: DatagramAqmConfig,
)
    requires
        c.dropping,
        c.drop_next is Some,
        dequeues.len() > 0,
        above_target_since(dequeues, 0, config),
    ensures
        ({
            let before = codel_after(c, dequeues.drop_last(), config);
            let after = codel_after(c, dequeues, config);
            &&& before.dropping && before.drop_next is Some
            &&& after.dropping && after.drop_next is Some
            &&& codel_drops(c, dequeues, config) <==> dequeues.last().now >= before.drop_next->0
            &&& after.count == before.count + (if dequeues.last().now >= before.drop_next->0 {
                1int
            } else {
                0
            })
        }),
    decreases dequeues.len(),
{
    let before = dequeues.drop_last();
    assert(!codel_calm(dequeues.last().sojourn, dequeues.last().backlog, config));
    if before.len() > 0 {
        assert(forall|i: int| 0 <= i < before.len() ==> before[i] == #[trigger] dequeues[i]);
        law_standing_queue_keeps_being_dropped(c, before, config);
    }
}

} // verus!
