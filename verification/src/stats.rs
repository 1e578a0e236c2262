//! Counters of what became of outgoing datagrams.
use vstd::prelude::*;

use crate::class::DatagramEcn;

verus! {

/// Counters of outgoing datagrams
#[derive(Debug, Clone, Copy, PartialEq, Eq)]
pub struct DatagramTxStats {
    /// Datagrams dropped by the queue management
    pub dropped_aqm: u64,
    /// Datagrams evicted because the send buffer was full
    pub dropped_overflow: u64,
    /// Accepted datagrams classified as not ECN-capable
    pub ecn_not_ect: u64,
    /// Accepted datagrams classified as ECT(0)
    pub ecn_ect0: u64,
    /// Accepted datagrams classified as ECT(1)
    pub ecn_ect1: u64,
    /// Accepted datagrams classified as having experienced congestion
    pub ecn_ce: u64,
}

impl DatagramTxStats {
    /// The counter that a codepoint is counted in
    pub open spec fn ecn_count(&self, ecn: DatagramEcn) -> u64 {
        match ecn {
            DatagramEcn::NotEct => self.ecn_not_ect,
            DatagramEcn::Ect0 => self.ecn_ect0,
            DatagramEcn::Ect1 => self.ecn_ect1,
            DatagramEcn::Ce => self.ecn_ce,
        }
    }

    /// Count the codepoint of an accepted datagram, if it was classified
    pub fn record_ecn(&mut self, ecn: Option<DatagramEcn>)
        requires
            ecn is Some ==> old(self).ecn_count(ecn->0) < u64::MAX,
        ensures
            final(self).dropped_aqm == old(self).dropped_aqm,
            final(self).dropped_overflow == old(self).dropped_overflow,
            forall|e: DatagramEcn| #[trigger]
                final(self).ecn_count(e) == old(self).ecn_count(e) + (if ecn == Some(e) {
                    1int
                } else {
                    0
                }),
            match ecn {
                Some(DatagramEcn::NotEct) => *final(self) == (DatagramTxStats {
                    ecn_not_ect: (old(self).ecn_not_ect + 1) as u64,
                    ..*old(self)
                }),
                Some(DatagramEcn::Ect0) => *final(self) == (DatagramTxStats {
                    ecn_ect0: (old(self).ecn_ect0 + 1) as u64,
                    ..*old(self)
                }),
                Some(DatagramEcn::Ect1) => *final(self) == (DatagramTxStats {
                    ecn_ect1: (old(self).ecn_ect1 + 1) as u64,
                    ..*old(self)
                }),
                Some(DatagramEcn::Ce) => *final(self) == (DatagramTxStats {
                    ecn_ce: (old(self).ecn_ce + 1) as u64,
                    ..*old(self)
                }),
                None => *final(self) == *old(self),
            },
    {
        match ecn {
            Some(DatagramEcn::NotEct) => {
                self.ecn_not_ect = self.ecn_not_ect + 1;
            },
            Some(DatagramEcn::Ect0) => {
                self.ecn_ect0 = self.ecn_ect0 + 1;
            },
            Some(DatagramEcn::Ect1) => {
                self.ecn_ect1 = self.ecn_ect1 + 1;
            },
            Some(DatagramEcn::Ce) => {
                self.ecn_ce = self.ecn_ce + 1;
            },
            None => {},
        }
    }
}

impl Default for DatagramTxStats {
    /// Nothing counted yet
    fn default() -> (stats: Self)
        ensures
            stats == (DatagramTxStats {
                dropped_aqm: 0,
                dropped_overflow: 0,
                ecn_not_ect: 0,
                ecn_ect0: 0,
                ecn_ect1: 0,
                ecn_ce: 0,
            }),
    {
        DatagramTxStats {
            dropped_aqm: 0,
            dropped_overflow: 0,
            ecn_not_ect: 0,
            ecn_ect0: 0,
            ecn_ect1: 0,
            ecn_ce: 0,
        }
    }
}

/// Every codepoint has a counter of its own.
pub proof fn law_codepoints_are_counted_apart(stats: DatagramTxStats)
    ensures
        stats.ecn_count(DatagramEcn::NotEct) == stats.ecn_not_ect,
        stats.ecn_count(DatagramEcn::Ect0) == stats.ecn_ect0,
        stats.ecn_count(DatagramEcn::Ect1) == stats.ecn_ect1,
        stats.ecn_count(DatagramEcn::Ce) == stats.ecn_ce,
{
}

} // verus!
