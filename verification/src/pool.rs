//! Connection-pool accounting: a bounded count of in-flight backend
//! commands. The pool itself lives outside; this is the law it must obey —
//! a lease succeeds only below capacity, so in-flight commands never exceed
//! it, and a caller that is refused waits rather than passing through.

use vstd::prelude::*;

use crate::config::{redis_url_text, Config};

verus! {

/// The pool's accounting state.
pub struct PoolState {
    pub capacity: usize,
    pub in_flight: usize,
}

impl PoolState {
    /// The cap: in-flight leases never exceed capacity.
    pub open spec fn inv(self) -> bool {
        self.in_flight <= self.capacity
    }

    pub fn new(capacity: usize) -> (r: PoolState)
        ensures
            r.capacity == capacity,
            r.in_flight == 0,
            r.inv(),
    {
        PoolState { capacity, in_flight: 0 }
    }

    /// Grants a lease exactly when one is free; a refused caller holds no
    /// lease and must wait.
    pub fn try_lease(&mut self) -> (r: bool)
        requires
            old(self).inv(),
        ensures
            final(self).inv(),
            final(self).capacity == old(self).capacity,
            r == (old(self).in_flight < old(self).capacity),
            r ==> final(self).in_flight == old(self).in_flight + 1,
            !r ==> final(self).in_flight == old(self).in_flight,
    {
        if self.in_flight < self.capacity {
            self.in_flight = self.in_flight + 1;
            true
        } else {
            false
        }
    }

    /// Returns a lease.
    pub fn release(&mut self)
        requires
            old(self).inv(),
            old(self).in_flight > 0,
        ensures
            final(self).inv(),
            final(self).capacity == old(self).capacity,
            final(self).in_flight == old(self).in_flight - 1,
    {
        self.in_flight = self.in_flight - 1;
    }
}

/// One step of pool traffic.
pub enum PoolEvent {
    Lease,
    Release,
}

/// What one event does to the accounting: a lease only below capacity, a
/// release only above zero.
pub open spec fn pool_apply(st: PoolState, ev: PoolEvent) -> PoolState {
    match ev {
        PoolEvent::Lease => if st.in_flight < st.capacity {
            PoolState { capacity: st.capacity, in_flight: (st.in_flight + 1) as usize }
        } else {
            st
        },
        PoolEvent::Release => if st.in_flight > 0 {
            PoolState { capacity: st.capacity, in_flight: (st.in_flight - 1) as usize }
        } else {
            st
        },
    }
}

/// The state after a whole trace of events.
pub open spec fn pool_run(st: PoolState, evs: Seq<PoolEvent>) -> PoolState
    decreases evs.len(),
{
    if evs.len() == 0 {
        st
    } else {
        pool_run(pool_apply(st, evs[0]), evs.drop_first())
    }
}

/// Pool cap law: whatever the traffic, in-flight leases stay within the
/// capacity, and the capacity never changes.
pub proof fn lemma_pool_cap(st: PoolState, evs: Seq<PoolEvent>)
    requires
        st.inv(),
    ensures
        pool_run(st, evs).inv(),
        pool_run(st, evs).capacity == st.capacity,
    decreases evs.len(),
{
    if evs.len() > 0 {
        lemma_pool_cap(pool_apply(st, evs[0]), evs.drop_first());
    }
}

/// What the pool is built from: the backend URL and the total capacity,
/// per-thread size times thread count.
pub struct PoolSettings {
    pub url: String,
    pub size: usize,
}

/// The capacity the configuration asks for.
pub open spec fn pool_capacity(c: Config) -> int {
    (match c.pool_size_per_thread {
        Some(p) => p as int,
        None => 10,
    }) * (match c.http_threads {
        Some(t) => t as int,
        None => 4,
    })
}

/// Builds the pool settings from the configuration.
pub fn create_pool(config: &Config) -> (r: PoolSettings)
    requires
        pool_capacity(*config) <= usize::MAX,
    ensures
        r.url@ == redis_url_text(*config),
        r.size == pool_capacity(*config),
{
    let per = match config.pool_size_per_thread {
        Some(p) => p,
        None => 10,
    };
    let threads = match config.http_threads {
        Some(t) => t,
        None => 4,
    };
    PoolSettings { url: config.get_redis_url(), size: per * threads }
}

} // verus!
