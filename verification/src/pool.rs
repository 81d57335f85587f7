//! The in-flight pools that every layer tracks its per-connection work in:
//! decodes for the HTTP layer, redirect sends for the redirect responder,
//! and the two handshake stages of the TLS layer. The pools fix the
//! two-level fused-termination rule — a layer ends only when its upstream is
//! exhausted AND none of its own work is still in flight — and they order
//! nothing by arrival: a completion is consumed whenever it is ready,
//! whatever the upstream is doing.

use vstd::prelude::*;

verus! {

/// What a layer does after one bookkeeping step.
#[derive(Clone, Copy, PartialEq, Eq, Structural, Debug)]
pub enum PoolStep {
    /// Hand the finished item downstream.
    Yield,
    /// Drop the failed item's connection; the sequence itself continues.
    Discard,
}

/// One layer's in-flight pool: whether its upstream can still produce, and
/// how many of its own operations are unfinished. Completion order is
/// ready-order; the pool holds no per-item state and so cannot order items
/// by arrival.
pub struct FlightPool {
    pub upstream_open: bool,
    pub in_flight: usize,
}

pub open spec fn pool_terminated(p: FlightPool) -> bool {
    !p.upstream_open && p.in_flight == 0
}

impl FlightPool {
    /// A fresh layer: upstream open, nothing in flight.
    pub fn new() -> (r: FlightPool)
        ensures
            r.upstream_open,
            r.in_flight == 0,
    {
        FlightPool { upstream_open: true, in_flight: 0 }
    }

    /// The upstream produced a connection: one more operation in flight.
    pub fn on_upstream_item(&mut self)
        requires
            old(self).upstream_open,
            old(self).in_flight < usize::MAX,
        ensures
            final(self).upstream_open,
            final(self).in_flight == old(self).in_flight + 1,
    {
        self.in_flight = self.in_flight + 1;
    }

    /// The upstream is exhausted. In-flight work keeps running: nothing is
    /// aborted mid-operation.
    pub fn on_upstream_end(&mut self)
        requires
            old(self).upstream_open,
        ensures
            !final(self).upstream_open,
            final(self).in_flight == old(self).in_flight,
    {
        self.upstream_open = false;
    }

    /// One in-flight operation finished, successfully or not. It is consumed
    /// whatever the upstream's state: a slow upstream or a slow sibling never
    /// blocks a ready completion.
    pub fn on_work_done(&mut self, ok: bool) -> (r: PoolStep)
        requires
            old(self).in_flight > 0,
        ensures
            final(self).upstream_open == old(self).upstream_open,
            final(self).in_flight == old(self).in_flight - 1,
            r == PoolStep::Yield <==> ok,
    {
        self.in_flight = self.in_flight - 1;
        if ok {
            PoolStep::Yield
        } else {
            PoolStep::Discard
        }
    }

    /// The layer's sequence is over: exactly when the upstream is exhausted
    /// and no operation is still in flight.
    pub fn is_terminated(&self) -> (r: bool)
        ensures
            r == pool_terminated(*self),
    {
        !self.upstream_open && self.in_flight == 0
    }
}

/// The two-level fused-termination rule, stated on its own: a closed
/// upstream alone does not end the layer while work is in flight, and a
/// drained pool alone does not end it while the upstream is open.
pub proof fn lemma_two_level_termination(p: FlightPool)
    ensures
        p.in_flight > 0 ==> !pool_terminated(p),
        p.upstream_open ==> !pool_terminated(p),
        !p.upstream_open && p.in_flight == 0 ==> pool_terminated(p),
{
}

/// The TLS layer's pool: handshakes go through two stages, waiting for the
/// Client Hello and then running the handshake under the chosen
/// configuration, each tracked independently.
pub struct TlsPool {
    pub upstream_open: bool,
    pub starting: usize,
    pub accepting: usize,
}

pub open spec fn tls_pool_terminated(p: TlsPool) -> bool {
    !p.upstream_open && p.starting == 0 && p.accepting == 0
}

impl TlsPool {
    pub fn new() -> (r: TlsPool)
        ensures
            r.upstream_open,
            r.starting == 0,
            r.accepting == 0,
    {
        TlsPool { upstream_open: true, starting: 0, accepting: 0 }
    }

    /// A raw connection arrived: its handshake starts at once and is tracked
    /// independently of every other connection.
    pub fn on_upstream_item(&mut self)
        requires
            old(self).upstream_open,
            old(self).starting < usize::MAX,
        ensures
            final(self).upstream_open,
            final(self).starting == old(self).starting + 1,
            final(self).accepting == old(self).accepting,
    {
        self.starting = self.starting + 1;
    }

    pub fn on_upstream_end(&mut self)
        requires
            old(self).upstream_open,
        ensures
            !final(self).upstream_open,
            final(self).starting == old(self).starting,
            final(self).accepting == old(self).accepting,
    {
        self.upstream_open = false;
    }

    /// A Client Hello arrived (or the start failed): the connection either
    /// moves to the handshake stage with its chosen configuration, or is
    /// dropped.
    pub fn on_hello_done(&mut self, ok: bool) -> (r: PoolStep)
        requires
            old(self).starting > 0,
            old(self).accepting < usize::MAX,
        ensures
            final(self).upstream_open == old(self).upstream_open,
            final(self).starting == old(self).starting - 1,
            final(self).accepting == if ok {
                old(self).accepting + 1
            } else {
                old(self).accepting as int
            },
            r == PoolStep::Yield <==> ok,
    {
        self.starting = self.starting - 1;
        if ok {
            self.accepting = self.accepting + 1;
            PoolStep::Yield
        } else {
            PoolStep::Discard
        }
    }

    /// A handshake finished: an encrypted stream to hand on, or a failure
    /// that drops only this connection.
    pub fn on_accept_done(&mut self, ok: bool) -> (r: PoolStep)
        requires
            old(self).accepting > 0,
        ensures
            final(self).upstream_open == old(self).upstream_open,
            final(self).starting == old(self).starting,
            final(self).accepting == old(self).accepting - 1,
            r == PoolStep::Yield <==> ok,
    {
        self.accepting = self.accepting - 1;
        if ok {
            PoolStep::Yield
        } else {
            PoolStep::Discard
        }
    }

    /// Exhausted only when the upstream is done AND no handshake is in
    /// flight in either stage.
    pub fn is_terminated(&self) -> (r: bool)
        ensures
            r == tls_pool_terminated(*self),
    {
        !self.upstream_open && self.starting == 0 && self.accepting == 0
    }
}

/// The same fused-termination rule for the two-stage pool: a connection
/// mid-handshake holds the layer open through either stage.
pub proof fn lemma_tls_two_level_termination(p: TlsPool)
    ensures
        p.starting > 0 ==> !tls_pool_terminated(p),
        p.accepting > 0 ==> !tls_pool_terminated(p),
        p.upstream_open ==> !tls_pool_terminated(p),
        !p.upstream_open && p.starting == 0 && p.accepting == 0 ==> tls_pool_terminated(p),
{
}

} // verus!
