//! Counters of network activity.

use vstd::prelude::*;

verus! {

/// The counters at one moment.
#[derive(Debug, Clone, Copy, PartialEq, Eq)]
pub struct NetworkMetricsSnapshot {
    pub accepted_connections: u64,
    pub authentication_failures: u64,
    pub requests: u64,
    pub request_errors: u64,
    pub bytes_received: u64,
    pub bytes_sent: u64,
    pub cancelled_after_quorum: u64,
}

/// Counters that start over behind the largest number.
#[derive(Debug)]
pub struct NetworkMetrics {
    counts: NetworkMetricsSnapshot,
}

impl View for NetworkMetrics {
    type V = NetworkMetricsSnapshot;

    closed spec fn view(&self) -> NetworkMetricsSnapshot {
        self.counts
    }
}

impl Default for NetworkMetrics {
    fn default() -> (metrics: Self)
        ensures
            metrics@ == (NetworkMetricsSnapshot {
                accepted_connections: 0,
                authentication_failures: 0,
                requests: 0,
                request_errors: 0,
                bytes_received: 0,
                bytes_sent: 0,
                cancelled_after_quorum: 0,
            }),
    {
        NetworkMetrics {
            counts: NetworkMetricsSnapshot {
                accepted_connections: 0,
                authentication_failures: 0,
                requests: 0,
                request_errors: 0,
                bytes_received: 0,
                bytes_sent: 0,
                cancelled_after_quorum: 0,
            },
        }
    }
}

impl NetworkMetrics {
    pub fn snapshot(&self) -> (counts: NetworkMetricsSnapshot)
        ensures
            counts == self@,
    {
        self.counts
    }

    pub fn connection_accepted(&mut self)
        ensures
            final(self)@ == (NetworkMetricsSnapshot {
                accepted_connections: old(self)@.accepted_connections.wrapping_add(1),
                ..old(self)@
            }),
    {
        self.counts.accepted_connections = self.counts.accepted_connections.wrapping_add(1);
    }

    pub fn authentication_failed(&mut self)
        ensures
            final(self)@ == (NetworkMetricsSnapshot {
                authentication_failures: old(self)@.authentication_failures.wrapping_add(1),
                ..old(self)@
            }),
    {
        self.counts.authentication_failures = self.counts.authentication_failures.wrapping_add(1);
    }

    pub fn request_received(&mut self, bytes: usize)
        ensures
            final(self)@ == (NetworkMetricsSnapshot {
                requests: old(self)@.requests.wrapping_add(1),
                bytes_received: old(self)@.bytes_received.wrapping_add(bytes as u64),
                ..old(self)@
            }),
    {
        self.counts.requests = self.counts.requests.wrapping_add(1);
        self.counts.bytes_received = self.counts.bytes_received.wrapping_add(bytes as u64);
    }

    pub fn response_sent(&mut self, bytes: usize)
        ensures
            final(self)@ == (NetworkMetricsSnapshot {
                bytes_sent: old(self)@.bytes_sent.wrapping_add(bytes as u64),
                ..old(self)@
            }),
    {
        self.counts.bytes_sent = self.counts.bytes_sent.wrapping_add(bytes as u64);
    }

    pub fn request_failed(&mut self)
        ensures
            final(self)@ == (NetworkMetricsSnapshot {
                request_errors: old(self)@.request_errors.wrapping_add(1),
                ..old(self)@
            }),
    {
        self.counts.request_errors = self.counts.request_errors.wrapping_add(1);
    }

    pub fn quorum_cancelled(&mut self, count: usize)
        ensures
            final(self)@ == (NetworkMetricsSnapshot {
                cancelled_after_quorum: old(self)@.cancelled_after_quorum.wrapping_add(
                    count as u64,
                ),
                ..old(self)@
            }),
    {
        self.counts.cancelled_after_quorum = self.counts.cancelled_after_quorum.wrapping_add(
            count as u64,
        );
    }
}

} // verus!
