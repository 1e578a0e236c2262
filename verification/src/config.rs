//! Settings of the datagram queues.
use vstd::prelude::*;

use crate::time::Duration;

verus! {

/// Parameters of the queue management on outgoing datagrams
#[derive(Debug, Clone, Copy, PartialEq, Eq)]
pub struct DatagramAqmConfig {
    /// Acceptable standing queue latency
    pub target: Duration,
    /// How long latency may stay above `target` before datagrams are dropped
    pub interval: Duration,
    /// Number of per-flow queues; one queue for everything where this is 1 or less
    pub flow_queues: u32,
}

impl DatagramAqmConfig {
    /// Set the acceptable queue latency
    pub fn target(&mut self, value: Duration)
        ensures
            *final(self) == (DatagramAqmConfig { target: value, ..*old(self) }),
    {
        self.target = value;
    }

    /// Set the time that latency may stay above target
    pub fn interval(&mut self, value: Duration)
        ensures
            *final(self) == (DatagramAqmConfig { interval: value, ..*old(self) }),
    {
        self.interval = value;
    }

    /// Set the number of per-flow queues, at least one
    pub fn flow_queues(&mut self, value: u32)
        ensures
            *final(self) == (DatagramAqmConfig {
                flow_queues: if value == 0 {
                    1
                } else {
                    value
                },
                ..*old(self)
            }),
    {
        self.flow_queues = if value == 0 {
            1
        } else {
            value
        };
    }
}

impl Default for DatagramAqmConfig {
    /// 15 ms target, 100 ms interval, 1024 queues
    fn default() -> (config: Self)
        ensures
            config.target@ == 15_000_000,
            config.interval@ == 100_000_000,
            config.flow_queues == 1024,
    {
        DatagramAqmConfig {
            target: Duration::from_millis(15),
            interval: Duration::from_millis(100),
            flow_queues: 1024,
        }
    }
}

/// A nonnegative rational number
#[derive(Debug, Clone, Copy)]
pub struct Ratio {
    pub numerator: u64,
    pub denominator: u64,
}

/// Parameters of the adaptive send buffer
#[derive(Debug, Clone, Copy)]
pub struct DatagramBdpBufferConfig {
    /// Buffer size as a multiple of the bandwidth-delay product, at least 1
    pub multiple: Ratio,
    /// Size in bytes below which the buffer is not shrunk
    pub floor: usize,
}

impl DatagramBdpBufferConfig {
    /// The multiple is a number, and at least one
    pub open spec fn wf(&self) -> bool {
        0 < self.multiple.denominator <= self.multiple.numerator
    }

    /// Set the multiple to `numerator / denominator`, or to one where that is
    /// less: a smaller buffer cannot keep the path full
    pub fn multiple(&mut self, numerator: u64, denominator: u64)
        requires
            denominator > 0,
        ensures
            final(self).wf(),
            final(self).floor == old(self).floor,
            numerator >= denominator ==> final(self).multiple == (Ratio { numerator, denominator }),
            numerator < denominator ==> final(self).multiple == (Ratio {
                numerator: 1,
                denominator: 1,
            }),
    {
        self.multiple = if numerator < denominator {
            Ratio { numerator: 1, denominator: 1 }
        } else {
            Ratio { numerator, denominator }
        };
    }

    /// Set the size below which the buffer is not shrunk
    pub fn floor(&mut self, value: usize)
        ensures
            *final(self) == (DatagramBdpBufferConfig { floor: value, ..*old(self) }),
    {
        self.floor = value;
    }
}

impl Default for DatagramBdpBufferConfig {
    /// Four times the bandwidth-delay product, no less than 1 MiB
    fn default() -> (config: Self)
        ensures
            config.wf(),
            config.multiple == (Ratio { numerator: 4, denominator: 1 }),
            config.floor == 1_048_576,
    {
        DatagramBdpBufferConfig {
            multiple: Ratio { numerator: 4, denominator: 1 },
            floor: 1_048_576,
        }
    }
}

/// The part of a connection's configuration that concerns datagrams
#[derive(Debug, Clone, Copy)]
pub struct TransportConfig {
    /// Bytes of received datagrams to hold, or `None` where datagrams are disabled
    pub datagram_receive_buffer_size: Option<usize>,
    /// Bytes of outgoing datagrams to hold
    pub datagram_send_buffer_size: usize,
    /// Queue management on outgoing datagrams, if any
    pub datagram_send_aqm: Option<DatagramAqmConfig>,
    /// Adaptive sizing of the send buffer, if any
    pub datagram_send_buffer_bdp: Option<DatagramBdpBufferConfig>,
}

impl TransportConfig {
    pub open spec fn wf(&self) -> bool {
        match self.datagram_send_buffer_bdp {
            Some(config) => config.wf(),
            None => true,
        }
    }
}

/// `multiple * bdp`, rounded down, or the nearer of the bounds where it lies
/// outside them; `configured` wins over a larger floor
pub open spec fn adaptive_limit(configured: int, config: DatagramBdpBufferConfig, bdp: int) -> int {
    let target = bdp * config.multiple.numerator / config.multiple.denominator as int;
    let least = if config.floor < configured {
        config.floor as int
    } else {
        configured
    };
    if target > configured {
        configured
    } else if target < least {
        least
    } else {
        target
    }
}

/// `clamp(multiple x bdp, floor, configured)`, with the configured cap winning
/// over a larger floor (adaptation may only ever SHRINK the buffer)
pub fn adaptive_send_buffer_limit(
    configured: usize,
    config: &DatagramBdpBufferConfig,
    bdp: u64,
) -> (limit: usize)
    requires
        config.wf(),
    ensures
        limit == adaptive_limit(configured as int, *config, bdp as int),
        limit <= configured,
        limit >= config.floor || limit == configured,
        limit > config.floor ==> limit * config.multiple.denominator <= bdp
            * config.multiple.numerator,
        limit < configured ==> bdp * config.multiple.numerator < (limit + 1)
            * config.multiple.denominator,
{
    proof {
        assert(bdp * config.multiple.numerator <= u64::MAX * u64::MAX) by (nonlinear_arith)
            requires
                bdp <= u64::MAX,
                config.multiple.numerator <= u64::MAX,
        ;
        law_limit_is_the_multiple_within_bounds(configured as int, *config, bdp as int);
    }
    let target: u128 = bdp as u128 * config.multiple.numerator as u128
        / config.multiple.denominator as u128;
    let least: usize = if config.floor < configured {
        config.floor
    } else {
        configured
    };
    if target > configured as u128 {
        configured
    } else if target < least as u128 {
        least
    } else {
        target as usize
    }
}

/// The limit is the whole part of `multiple * bdp`, unless a bound stands in the
/// way: below the upper bound it is no less, and above the lower bound no more.
pub proof fn law_limit_is_the_multiple_within_bounds(
    configured: int,
    config: DatagramBdpBufferConfig,
    bdp: int,
)
    requires
        configured >= 0,
        bdp >= 0,
        config.multiple.denominator > 0,
    ensures
        ({
            let limit = adaptive_limit(configured, config, bdp);
            let (n, d) = (config.multiple.numerator as int, config.multiple.denominator as int);
            &&& limit <= configured
            &&& limit >= config.floor || limit == configured
            &&& limit > config.floor ==> limit * d <= bdp * n
            &&& limit < configured ==> bdp * n < (limit + 1) * d
        }),
{
    lemma_whole_part(bdp * config.multiple.numerator, config.multiple.denominator as int);
    let limit = adaptive_limit(configured, config, bdp);
    let d = config.multiple.denominator as int;
    let target = bdp * config.multiple.numerator / d;
    if limit < target {
        assert(limit * d <= target * d) by (nonlinear_arith)
            requires
                limit < target,
                d > 0,
        ;
    }
    if target < limit {
        assert((target + 1) * d <= (limit + 1) * d) by (nonlinear_arith)
            requires
                target < limit,
                d > 0,
        ;
    }
}

proof fn lemma_whole_part(a: int, d: int)
    requires
        d > 0,
    ensures
        (a / d) * d <= a < (a / d + 1) * d,
{
    vstd::arithmetic::div_mod::lemma_fundamental_div_mod(a, d);
    assert((a / d) * d == d * (a / d) && (a / d + 1) * d == d * (a / d) + d) by (nonlinear_arith);
}

/// The limit never falls as the bandwidth-delay product grows, nor as the
/// configured size does.
pub proof fn law_limit_grows_with_the_path(
    configured: int,
    larger: int,
    config: DatagramBdpBufferConfig,
    bdp: int,
    faster: int,
)
    requires
        0 <= configured <= larger,
        0 <= bdp <= faster,
        config.multiple.denominator > 0,
    ensures
        adaptive_limit(configured, config, bdp) <= adaptive_limit(configured, config, faster),
        adaptive_limit(configured, config, bdp) <= adaptive_limit(larger, config, bdp),
{
    let (n, d) = (config.multiple.numerator as int, config.multiple.denominator as int);
    assert(bdp * n <= faster * n) by (nonlinear_arith)
        requires
            bdp <= faster,
            n >= 0,
    ;
    vstd::arithmetic::div_mod::lemma_div_is_ordered(bdp * n, faster * n, d);
}

} // verus!
