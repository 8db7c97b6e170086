//! The pub/sub multiplexer: one upstream subscription shared by many local
//! subscribers. The registry maps each channel with at least one subscriber
//! to a broadcast endpoint; the upstream state machine keeps the set of
//! channels subscribed upstream a superset of those, counting the control
//! commands still in flight. Delivery is a bounded ring per subscriber: a
//! subscriber that keeps pace sees every payload in order, one that falls
//! more than the capacity behind sees one lagged signal and goes on from
//! the oldest retained payload.

use vstd::prelude::*;

use crate::seqs::{bytes_eq, copy_bytes, push_all};

use vstd::pervasive::VecAdditionalExecFns;

verus! {

/// One channel's broadcast endpoint: the full ordered history of payloads
/// and the ring bound past which a subscriber is lagged.
pub struct Endpoint {
    pub capacity: usize,
    pub history: Vec<Vec<u8>>,
}

/// A subscriber's position in an endpoint's history.
pub struct SubCursor {
    pub next: usize,
}

/// What one receive yields.
pub enum RecvOutcome {
    Empty,
    Lagged(usize),
    Msg(Vec<u8>),
}

impl Endpoint {
    pub fn new(capacity: usize) -> (r: Endpoint)
        ensures
            r.capacity == capacity,
            r.history@.len() == 0,
    {
        Endpoint { capacity, history: Vec::new() }
    }

    /// Publishing appends: no payload a subscriber has yet to see is ever
    /// removed or reordered.
    pub fn publish(&mut self, payload: Vec<u8>)
        ensures
            final(self).history@ == old(self).history@.push(payload),
            final(self).capacity == old(self).capacity,
    {
        self.history.push(payload);
    }

    /// A subscriber attaching now starts at the end of the history.
    pub fn attach(&self) -> (r: SubCursor)
        ensures
            r.next == self.history@.len(),
    {
        SubCursor { next: self.history.len() }
    }

    /// One receive: within the ring, the next payload in order; further
    /// behind than the capacity, one lagged signal counting the skipped
    /// payloads, after which the cursor sits at the oldest retained one.
    pub fn recv(&self, cur: &mut SubCursor) -> (r: RecvOutcome)
        requires
            old(cur).next <= self.history@.len(),
        ensures
            final(cur).next <= self.history@.len(),
            (if self.history@.len() - old(cur).next > self.capacity {
                (match r {
                    RecvOutcome::Lagged(skipped) => skipped == self.history@.len()
                        - self.capacity - old(cur).next && final(cur).next == self.history@.len()
                        - self.capacity,
                    _ => false,
                })
            } else if old(cur).next < self.history@.len() {
                (match r {
                    RecvOutcome::Msg(p) => p@ == self.history@[old(cur).next as int]@
                        && final(cur).next == old(cur).next + 1,
                    _ => false,
                })
            } else {
                r is Empty && final(cur).next == old(cur).next
            }),
    {
        let len = self.history.len();
        if len - cur.next > self.capacity {
            let skipped = len - self.capacity - cur.next;
            cur.next = len - self.capacity;
            RecvOutcome::Lagged(skipped)
        } else if cur.next < len {
            let p = copy_bytes(self.history[cur.next].as_slice());
            cur.next = cur.next + 1;
            RecvOutcome::Msg(p)
        } else {
            RecvOutcome::Empty
        }
    }
}

/// The ghost image of one receive over a fixed history.
pub enum RecvView {
    Empty,
    Lagged(int),
    Msg(Seq<u8>),
}

/// What one receive yields and where it leaves the cursor, over a history
/// of `h` payloads and a ring of `cap`.
pub open spec fn recv_spec(h: Seq<Seq<u8>>, cap: int, next: int) -> (RecvView, int) {
    if h.len() - next > cap {
        (RecvView::Lagged(h.len() - cap - next), h.len() - cap)
    } else if next < h.len() {
        (RecvView::Msg(h[next]), next + 1)
    } else {
        (RecvView::Empty, next)
    }
}

/// The outcomes of `k` consecutive receives.
pub open spec fn recv_seq(h: Seq<Seq<u8>>, cap: int, next: int, k: nat) -> Seq<RecvView>
    decreases k,
{
    if k == 0 {
        Seq::empty()
    } else {
        let step = recv_spec(h, cap, next);
        seq![step.0] + recv_seq(h, cap, step.1, (k - 1) as nat)
    }
}

/// Delivery law: a subscriber no further behind than the ring holds sees,
/// over the next `k` receives, exactly the payloads published from its
/// cursor on, in publication order.
pub proof fn lemma_delivery_in_order(h: Seq<Seq<u8>>, cap: int, c: int, k: nat)
    requires
        0 <= c <= h.len(),
        h.len() - c <= cap,
        c + k <= h.len(),
    ensures
        recv_seq(h, cap, c, k) == h.subrange(c, c + k).map_values(|p: Seq<u8>| RecvView::Msg(p)),
    decreases k,
{
    let expect = h.subrange(c, c + k).map_values(|p: Seq<u8>| RecvView::Msg(p));
    if k == 0 {
        assert(recv_seq(h, cap, c, 0) =~= expect);
    } else {
        lemma_delivery_in_order(h, cap, c + 1, (k - 1) as nat);
        assert(recv_spec(h, cap, c).0 == RecvView::Msg(h[c]));
        assert(h.subrange(c + 1, c + k).map_values(|p: Seq<u8>| RecvView::Msg(p)) =~= expect.drop_first());
        assert(recv_seq(h, cap, c, k) =~= expect);
    }
}

/// Lag law: a subscriber further behind than the ring holds sees one lagged
/// signal counting exactly the skipped payloads, and from then on is within
/// the ring again.
pub proof fn lemma_lag_signal(h: Seq<Seq<u8>>, cap: int, c: int)
    requires
        0 <= c <= h.len(),
        h.len() - c > cap,
    ensures
        recv_spec(h, cap, c).0 == RecvView::Lagged(h.len() - cap - c),
        h.len() - recv_spec(h, cap, c).1 == cap,
{
}

/// One entry of the registry: the channel, its endpoint, and how many local
/// subscribers hold it.
pub struct ChannelEntry {
    pub name: Vec<u8>,
    pub endpoint: Endpoint,
    pub subscribers: usize,
}

/// A control command on its way to the upstream task.
pub enum PubSubCommand {
    Subscribe(Vec<u8>),
    Unsubscribe(Vec<u8>),
}

/// The upstream subscription's state.
pub enum Upstream {
    Disconnected,
    Connecting,
    Subscribed(Vec<Vec<u8>>),
    Draining,
}

/// The multiplexer: the local registry, the queued control commands, and
/// the upstream state.
pub struct PubSubManager {
    pub channels: Vec<ChannelEntry>,
    pub pending: Vec<PubSubCommand>,
    pub upstream: Upstream,
}

/// Whether `name` is the subject of a queued subscribe command.
pub open spec fn pending_subscribe(pending: Seq<PubSubCommand>, name: Seq<u8>) -> bool {
    exists|j: int|
        0 <= j < pending.len() && (match #[trigger] pending[j] {
            PubSubCommand::Subscribe(c) => c@ == name,
            _ => false,
        })
}

/// Whether `name` is in a list of channel names.
pub open spec fn name_listed(list: Seq<Vec<u8>>, name: Seq<u8>) -> bool {
    exists|j: int| 0 <= j < list.len() && list[j]@ == name
}

impl PubSubManager {
    /// Registry well-formedness: channel names are unique.
    pub open spec fn wf(self) -> bool {
        forall|i: int, j: int|
            0 <= i < j < self.channels@.len() ==> self.channels@[i].name@ != self.channels@[
                j
            ].name@
    }

    /// Upstream coverage: while subscribed, every locally held channel is
    /// subscribed upstream or on its way there in the control queue.
    pub open spec fn covered(self) -> bool {
        match self.upstream {
            Upstream::Subscribed(set) => forall|i: int|
                0 <= i < self.channels@.len() ==> name_listed(
                    set@,
                    #[trigger] self.channels@[i].name@,
                ) || pending_subscribe(self.pending@, self.channels@[i].name@),
            _ => true,
        }
    }

    pub fn new() -> (r: PubSubManager)
        ensures
            r.channels@.len() == 0,
            r.pending@.len() == 0,
            r.upstream is Disconnected,
            r.wf(),
            r.covered(),
    {
        PubSubManager { channels: Vec::new(), pending: Vec::new(), upstream: Upstream::Disconnected }
    }

    /// The index of a channel's entry, if the registry holds it.
    fn find(&self, channel: &[u8]) -> (r: Option<usize>)
        ensures
            (match r {
                Some(i) => i < self.channels@.len() && self.channels@[i as int].name@ == channel@,
                None => forall|i: int|
                    0 <= i < self.channels@.len() ==> self.channels@[i].name@ != channel@,
            }),
    {
        let n = self.channels.len();
        let mut i: usize = 0;
        while i < n
            invariant
                n == self.channels@.len(),
                0 <= i <= n,
                forall|j: int| 0 <= j < i ==> self.channels@[j].name@ != channel@,
            decreases n - i,
        {
            if bytes_eq(self.channels[i].name.as_slice(), channel) {
                return Some(i);
            }
            i += 1;
        }
        None
    }

    /// A local subscribe: a new receiver on the existing endpoint, or a
    /// fresh entry of the default ring capacity with a subscribe command
    /// queued for the upstream task. Coverage is kept either way.
    pub fn subscribe(&mut self, channel: &[u8], capacity: usize) -> (r: (usize, SubCursor))
        requires
            old(self).wf(),
            old(self).covered(),
            old(self).channels@.len() < usize::MAX,
        ensures
            final(self).wf(),
            final(self).covered(),
            final(self).upstream == old(self).upstream,
            r.0 < final(self).channels@.len(),
            final(self).channels@[r.0 as int].name@ == channel@,
            r.1.next == final(self).channels@[r.0 as int].endpoint.history@.len(),
            (match old(self).find_spec(channel@) {
                Some(i) => r.0 == i && final(self).channels@.len() == old(self).channels@.len()
                    && final(self).pending == old(self).pending
                    && final(self).channels@[i].endpoint == old(self).channels@[i].endpoint
                    && final(self).channels@[i].subscribers == (
                    if old(self).channels@[i].subscribers < usize::MAX {
                        old(self).channels@[i].subscribers + 1
                    } else {
                        old(self).channels@[i].subscribers as int
                    }) && (forall|q: int|
                    0 <= q < final(self).channels@.len() && q != i
                        ==> #[trigger] final(self).channels@[q] == old(self).channels@[q]),
                None => final(self).channels@.len() == old(self).channels@.len() + 1
                    && final(self).channels@.last().name@ == channel@
                    && final(self).channels@.last().subscribers == 1
                    && final(self).channels@.last().endpoint.history@.len() == 0
                    && final(self).channels@.last().endpoint.capacity == capacity
                    && final(self).channels@.take(old(self).channels@.len() as int) == old(self).channels@ && final(self).pending@.len() == old(self).pending@.len() + 1
                    && final(self).pending@.take(old(self).pending@.len() as int) == old(self).pending@ && (match final(self).pending@.last() {
                    PubSubCommand::Subscribe(c) => c@ == channel@,
                    _ => false,
                }),
            }),
    {
        match self.find(channel) {
            Some(i) => {
                proof {
                    old(self).lemma_find_spec(channel@, i as int);
                }
                let mut entry = ChannelEntry {
                    name: Vec::new(),
                    endpoint: Endpoint { capacity: 0, history: Vec::new() },
                    subscribers: 0,
                };
                self.channels.set_and_swap(i, &mut entry);
                let cur = SubCursor { next: entry.endpoint.history.len() };
                if entry.subscribers < usize::MAX {
                    entry.subscribers = entry.subscribers + 1;
                }
                self.channels.set(i, entry);
                proof {
                    assert(self.channels@ =~= old(self).channels@.update(
                        i as int,
                        self.channels@[i as int],
                    ));
                    assert forall|q: int|
                        0 <= q < self.channels@.len() && q != i as int
                            implies #[trigger] self.channels@[q] == old(self).channels@[q] by {}
                    assert forall|q: int|
                        0 <= q < self.channels@.len() implies name_listed(
                        (match self.upstream {
                            Upstream::Subscribed(set) => set@,
                            _ => Seq::empty(),
                        }),
                        #[trigger] self.channels@[q].name@,
                    ) || pending_subscribe(self.pending@, self.channels@[q].name@) || !(
                    self.upstream is Subscribed) by {
                        assert(self.channels@[q].name@ == old(self).channels@[q].name@);
                    }
                }
                (i, cur)
            },
            None => {
                proof {
                    old(self).lemma_find_spec_none(channel@);
                }
                let name = copy_bytes(channel);
                let name2 = copy_bytes(channel);
                let endpoint = Endpoint::new(capacity);
                let cur = SubCursor { next: 0 };
                self.channels.push(ChannelEntry { name, endpoint, subscribers: 1 });
                self.pending.push(PubSubCommand::Subscribe(name2));
                let idx = self.channels.len() - 1;
                proof {
                    assert(self.channels@.take(old(self).channels@.len() as int) =~= old(self).channels@);
                    assert(self.pending@.take(old(self).pending@.len() as int) =~= old(self).pending@);
                    assert forall|q: int|
                        0 <= q < self.channels@.len() implies name_listed(
                        (match self.upstream {
                            Upstream::Subscribed(set) => set@,
                            _ => Seq::empty(),
                        }),
                        #[trigger] self.channels@[q].name@,
                    ) || pending_subscribe(self.pending@, self.channels@[q].name@) || !(
                    self.upstream is Subscribed) by {
                        if self.upstream is Subscribed {
                            if q < old(self).channels@.len() {
                                assert(self.channels@[q] == old(self).channels@[q]);
                                if pending_subscribe(old(self).pending@, old(self).channels@[
                                    q
                                ].name@) {
                                    let w = choose|j: int|
                                        0 <= j < old(self).pending@.len() && (match #[trigger] old(self).pending@[j] {
                                            PubSubCommand::Subscribe(c) => c@ == old(self).channels@[q].name@,
                                            _ => false,
                                        });
                                    assert(self.pending@[w] == old(self).pending@[w]);
                                }
                            } else {
                                assert(self.channels@[q].name@ == channel@);
                                assert((match self.pending@[self.pending@.len() - 1] {
                                    PubSubCommand::Subscribe(c) => c@ == channel@,
                                    _ => false,
                                }));
                            }
                        }
                    }
                }
                (idx, cur)
            },
        }
    }

    /// Where a channel stands in the registry, as the contracts speak of it.
    pub open spec fn find_spec(self, channel: Seq<u8>) -> Option<int> {
        if exists|i: int| 0 <= i < self.channels@.len() && self.channels@[i].name@ == channel {
            Some(choose|i: int| 0 <= i < self.channels@.len() && self.channels@[i].name@ == channel)
        } else {
            None
        }
    }

    proof fn lemma_find_spec(self, channel: Seq<u8>, i: int)
        requires
            self.wf(),
            0 <= i < self.channels@.len(),
            self.channels@[i].name@ == channel,
        ensures
            self.find_spec(channel) == Some(i),
    {
        let w = choose|j: int|
            0 <= j < self.channels@.len() && self.channels@[j].name@ == channel;
        if w != i {
            assert(self.channels@[w].name@ == self.channels@[i].name@);
        }
    }

    proof fn lemma_find_spec_none(self, channel: Seq<u8>)
        requires
            forall|i: int| 0 <= i < self.channels@.len() ==> self.channels@[i].name@ != channel,
        ensures
            self.find_spec(channel) is None,
    {
    }

    /// A local release: one subscriber fewer; the last one out removes the
    /// entry and queues an unsubscribe for the upstream task.
    pub fn release(&mut self, channel: &[u8])
        requires
            old(self).wf(),
            old(self).covered(),
        ensures
            final(self).wf(),
            final(self).covered(),
            final(self).upstream == old(self).upstream,
            (match old(self).find_spec(channel@) {
                None => final(self).channels == old(self).channels && final(self).pending == old(self).pending,
                Some(i) => if old(self).channels@[i].subscribers <= 1 {
                    final(self).channels@ == old(self).channels@.remove(i) && final(self).pending@.len() == old(self).pending@.len() + 1 && final(self).pending@.take(
                        old(self).pending@.len() as int,
                    ) == old(self).pending@ && (match final(self).pending@.last() {
                        PubSubCommand::Unsubscribe(c) => c@ == channel@,
                        _ => false,
                    })
                } else {
                    final(self).pending == old(self).pending && final(self).channels@.len() == old(self).channels@.len() && final(self).channels@[i].subscribers == old(self).channels@[i].subscribers - 1 && final(self).channels@[i].name == old(self).channels@[i].name && final(self).channels@[i].endpoint == old(self).channels@[i].endpoint && (forall|q: int|
                        0 <= q < final(self).channels@.len() && q != i
                            ==> #[trigger] final(self).channels@[q] == old(self).channels@[q])
                },
            }),
    {
        match self.find(channel) {
            Some(i) => {
                proof {
                    old(self).lemma_find_spec(channel@, i as int);
                }
                let subs = self.channels[i].subscribers;
                if subs <= 1 {
                    let entry = self.channels.remove(i);
                    self.pending.push(PubSubCommand::Unsubscribe(entry.name));
                    proof {
                        assert(self.pending@.take(old(self).pending@.len() as int) =~= old(self).pending@);
                        assert forall|a: int, b: int|
                            0 <= a < b < self.channels@.len() implies self.channels@[a].name@
                            != self.channels@[b].name@ by {
                            if b < i as int {
                                assert(old(self).channels@[a].name@ != old(self).channels@[
                                    b
                                ].name@);
                            }
                        }
                        assert forall|q: int|
                            0 <= q < self.channels@.len() implies name_listed(
                            (match self.upstream {
                                Upstream::Subscribed(set) => set@,
                                _ => Seq::empty(),
                            }),
                            #[trigger] self.channels@[q].name@,
                        ) || pending_subscribe(self.pending@, self.channels@[q].name@) || !(
                        self.upstream is Subscribed) by {
                            let qq: int = if q < i as int {
                                q
                            } else {
                                q + 1
                            };
                            assert(self.channels@[q] == old(self).channels@[qq]);
                            if self.upstream is Subscribed {
                                if pending_subscribe(old(self).pending@, old(self).channels@[
                                    qq
                                ].name@) {
                                    let w = choose|j: int|
                                        0 <= j < old(self).pending@.len() && (match #[trigger] old(self).pending@[j] {
                                            PubSubCommand::Subscribe(c) => c@ == old(self).channels@[qq].name@,
                                            _ => false,
                                        });
                                    assert(self.pending@[w] == old(self).pending@[w]);
                                }
                            }
                        }
                    }
                } else {
                    let mut entry = ChannelEntry {
                        name: Vec::new(),
                        endpoint: Endpoint { capacity: 0, history: Vec::new() },
                        subscribers: 0,
                    };
                    self.channels.set_and_swap(i, &mut entry);
                    entry.subscribers = entry.subscribers - 1;
                    self.channels.set(i, entry);
                    proof {
                        assert forall|q: int|
                            0 <= q < self.channels@.len() && q != i as int
                                implies #[trigger] self.channels@[q] == old(self).channels@[q] by {}
                        assert forall|q: int|
                            0 <= q < self.channels@.len() implies name_listed(
                            (match self.upstream {
                                Upstream::Subscribed(set) => set@,
                                _ => Seq::empty(),
                            }),
                            #[trigger] self.channels@[q].name@,
                        ) || pending_subscribe(self.pending@, self.channels@[q].name@) || !(
                        self.upstream is Subscribed) by {
                            assert(self.channels@[q].name@ == old(self).channels@[q].name@);
                        }
                    }
                }
            },
            None => {
                proof {
                    old(self).lemma_find_spec_none(channel@);
                }
            },
        }
    }

    /// An upstream payload lands in its channel's endpoint, if one is held;
    /// other channels' histories are untouched.
    pub fn on_message(&mut self, channel: &[u8], payload: Vec<u8>) -> (r: bool)
        requires
            old(self).wf(),
            old(self).covered(),
        ensures
            final(self).wf(),
            final(self).covered(),
            final(self).upstream == old(self).upstream,
            final(self).pending == old(self).pending,
            final(self).channels@.len() == old(self).channels@.len(),
            forall|q: int|
                0 <= q < final(self).channels@.len() ==> #[trigger] final(self).channels@[q].name@
                    == old(self).channels@[q].name@,
            (match old(self).find_spec(channel@) {
                Some(i) => r && final(self).channels@[i].endpoint.history@ == old(self).channels@[i].endpoint.history@.push(payload) && (forall|q: int|
                    0 <= q < final(self).channels@.len() && q != i
                        ==> #[trigger] final(self).channels@[q] == old(self).channels@[q]),
                None => !r && final(self).channels@ == old(self).channels@,
            }),
    {
        match self.find(channel) {
            Some(i) => {
                proof {
                    old(self).lemma_find_spec(channel@, i as int);
                }
                let mut entry = ChannelEntry {
                    name: Vec::new(),
                    endpoint: Endpoint { capacity: 0, history: Vec::new() },
                    subscribers: 0,
                };
                self.channels.set_and_swap(i, &mut entry);
                entry.endpoint.publish(payload);
                self.channels.set(i, entry);
                proof {
                    assert forall|q: int|
                        0 <= q < self.channels@.len() && q != i as int
                            implies #[trigger] self.channels@[q] == old(self).channels@[q] by {}
                    assert forall|q: int|
                        0 <= q < self.channels@.len() implies name_listed(
                        (match self.upstream {
                            Upstream::Subscribed(set) => set@,
                            _ => Seq::empty(),
                        }),
                        #[trigger] self.channels@[q].name@,
                    ) || pending_subscribe(self.pending@, self.channels@[q].name@) || !(
                    self.upstream is Subscribed) by {
                        assert(self.channels@[q].name@ == old(self).channels@[q].name@);
                    }
                }
                true
           },
            None => {
                proof {
                    old(self).lemma_find_spec_none(channel@);
                }
                false
            },
        }
    }

    /// The upstream task begins a connection attempt.
    pub fn begin_connect(&mut self)
        requires
            old(self).wf(),
            old(self).upstream is Disconnected,
        ensures
            final(self).wf(),
            final(self).covered(),
            final(self).upstream is Connecting,
            final(self).channels == old(self).channels,
            final(self).pending == old(self).pending,
    {
        self.upstream = Upstream::Connecting;
    }

    /// A failed attempt: back to disconnected, the registry untouched; the
    /// caller waits out the backoff and tries again.
    pub fn connect_failed(&mut self)
        requires
            old(self).wf(),
        ensures
            final(self).wf(),
            final(self).covered(),
            final(self).upstream is Disconnected,
            final(self).channels == old(self).channels,
            final(self).pending == old(self).pending,
    {
        self.upstream = Upstream::Disconnected;
    }

    /// A fresh connection: every channel still held locally is subscribed
    /// anew, which establishes coverage with nothing pending.
    pub fn connect_ok(&mut self) -> (r: Vec<Vec<u8>>)
        requires
            old(self).wf(),
        ensures
            final(self).wf(),
            final(self).covered(),
            final(self).channels == old(self).channels,
            final(self).pending@.len() == 0,
            (match final(self).upstream {
                Upstream::Subscribed(set) => set@.len() == r@.len() && (forall|q: int|
                    0 <= q < set@.len() ==> #[trigger] set@[q]@ == r@[q]@),
                _ => false,
            }),
            r@.len() == old(self).channels@.len(),
            forall|q: int|
                0 <= q < r@.len() ==> #[trigger] r@[q]@ == old(self).channels@[q].name@,
    {
        let n = self.channels.len();
        let mut names: Vec<Vec<u8>> = Vec::new();
        let mut i: usize = 0;
        while i < n
            invariant
                n == self.channels@.len(),
                0 <= i <= n,
                names@.len() == i,
                forall|q: int| 0 <= q < i ==> #[trigger] names@[q]@ == self.channels@[q].name@,
            decreases n - i,
        {
            names.push(copy_bytes(self.channels[i].name.as_slice()));
            i += 1;
        }
        let mut upstream_names: Vec<Vec<u8>> = Vec::new();
        let mut j: usize = 0;
        while j < n
            invariant
                n == self.channels@.len(),
                0 <= j <= n,
                upstream_names@.len() == j,
                forall|q: int|
                    0 <= q < j ==> #[trigger] upstream_names@[q]@ == self.channels@[q].name@,
            decreases n - j,
        {
            upstream_names.push(copy_bytes(self.channels[j].name.as_slice()));
            j += 1;
        }
        self.pending = Vec::new();
        self.upstream = Upstream::Subscribed(upstream_names);
        proof {
            assert forall|q: int|
                0 <= q < self.channels@.len() implies name_listed(
                (match self.upstream {
                    Upstream::Subscribed(set) => set@,
                    _ => Seq::empty(),
                }),
                #[trigger] self.channels@[q].name@,
            ) || pending_subscribe(self.pending@, self.channels@[q].name@) by {
                match self.upstream {
                    Upstream::Subscribed(set) => {
                        assert(set@[q]@ == self.channels@[q].name@);
                    },
                    _ => {},
                }
            }
        }
        names
    }

    /// An orderly shutdown begins: the connection is draining and no
    /// coverage obligation remains; the caller unsubscribes what the
    /// upstream still holds and closes.
    pub fn begin_drain(&mut self)
        requires
            old(self).wf(),
        ensures
            final(self).wf(),
            final(self).covered(),
            final(self).upstream is Draining,
            final(self).channels == old(self).channels,
            final(self).pending == old(self).pending,
    {
        self.upstream = Upstream::Draining;
    }

    /// The upstream stream ended: back to disconnected with every registry
    /// entry retained, so a reconnection resubscribes them all.
    pub fn on_stream_end(&mut self)
        requires
            old(self).wf(),
        ensures
            final(self).wf(),
            final(self).covered(),
            final(self).upstream is Disconnected,
            final(self).channels == old(self).channels,
            final(self).pending == old(self).pending,
    {
        self.upstream = Upstream::Disconnected;
    }

    /// Drains the control queue while subscribed: each queued command joins
    /// or leaves the upstream set and is handed back for the wire. Coverage
    /// holds afterwards with an empty queue.
    pub fn drain_pending(&mut self) -> (r: Vec<PubSubCommand>)
        requires
            old(self).wf(),
            old(self).covered(),
            old(self).upstream is Subscribed,
        ensures
            final(self).wf(),
            final(self).covered(),
            final(self).pending@.len() == 0,
            final(self).channels == old(self).channels,
            r == old(self).pending,
            (match final(self).upstream {
                Upstream::Subscribed(set) => forall|q: int|
                    0 <= q < final(self).channels@.len() ==> name_listed(
                        set@,
                        #[trigger] final(self).channels@[q].name@,
                    ),
                _ => false,
            }),
    {
        let n = self.channels.len();
        // rebuild the set as exactly the locally held channels: queued
        // subscribes are all for channels in the registry, so this both
        // applies the queue and drops channels that were released
        let mut fresh: Vec<Vec<u8>> = Vec::new();
        let mut i: usize = 0;
        while i < n
            invariant
                n == self.channels@.len(),
                0 <= i <= n,
                fresh@.len() == i,
                forall|q: int| 0 <= q < i ==> #[trigger] fresh@[q]@ == self.channels@[q].name@,
            decreases n - i,
        {
            fresh.push(copy_bytes(self.channels[i].name.as_slice()));
            i += 1;
        }
        self.upstream = Upstream::Subscribed(fresh);
        let mut out: Vec<PubSubCommand> = Vec::new();
        core::mem::swap(&mut out, &mut self.pending);
        proof {
            assert forall|q: int|
                0 <= q < self.channels@.len() implies name_listed(
                (match self.upstream {
                    Upstream::Subscribed(s) => s@,
                    _ => Seq::empty(),
                }),
                #[trigger] self.channels@[q].name@,
            ) by {
                match self.upstream {
                    Upstream::Subscribed(s) => {
                        assert(s@[q]@ == self.channels@[q].name@);
                    },
                    _ => {},
                }
            }
        }
        out
    }
}

/// One server-sent event carrying a payload: `data: <payload>` and a blank
/// line.
pub open spec fn sse_event_text(payload: Seq<u8>) -> Seq<u8> {
    seq![100u8, 97u8, 116u8, 97u8, 58u8, 32u8] + payload + seq![10u8, 10u8]
}

/// The in-band event a lagged subscriber sees.
pub open spec fn sse_lagged_text() -> Seq<u8> {
    seq![
        101u8, 118u8, 101u8, 110u8, 116u8, 58u8, 32u8, 101u8, 114u8, 114u8, 111u8, 114u8, 10u8,
        100u8, 97u8, 116u8, 97u8, 58u8, 32u8, 108u8, 97u8, 103u8, 103u8, 101u8, 100u8, 10u8, 10u8,
    ]
}

/// Renders one payload as a server-sent event.
pub fn sse_event(payload: &[u8]) -> (r: Vec<u8>)
    ensures
        r@ == sse_event_text(payload@),
{
    let mut out: Vec<u8> = Vec::new();
    out.push(100);
    out.push(97);
    out.push(116);
    out.push(97);
    out.push(58);
    out.push(32);
    push_all(&mut out, payload);
    out.push(10);
    out.push(10);
    proof {
        assert(out@ =~= sse_event_text(payload@));
    }
    out
}

/// The periodic keep-alive comment of an event stream.
pub open spec fn sse_keepalive_text() -> Seq<u8> {
    seq![
        58u8, 32u8, 107u8, 101u8, 101u8, 112u8, 45u8, 97u8, 108u8, 105u8, 118u8, 101u8, 10u8,
        10u8,
    ]
}

/// Renders one keep-alive comment, `: keep-alive` and a blank line.
pub fn sse_keepalive() -> (r: Vec<u8>)
    ensures
        r@ == sse_keepalive_text(),
{
    let mut out: Vec<u8> = Vec::new();
    out.push(58);
    out.push(32);
    out.push(107);
    out.push(101);
    out.push(101);
    out.push(112);
    out.push(45);
    out.push(97);
    out.push(108);
    out.push(105);
    out.push(118);
    out.push(101);
    out.push(10);
    out.push(10);
    proof {
        assert(out@ =~= sse_keepalive_text());
    }
    out
}

/// Renders the lagged signal as a server-sent event.
pub fn sse_lagged() -> (r: Vec<u8>)
    ensures
        r@ == sse_lagged_text(),
{
    let mut out: Vec<u8> = Vec::new();
    out.push(101);
    out.push(118);
    out.push(101);
    out.push(110);
    out.push(116);
    out.push(58);
    out.push(32);
    out.push(101);
    out.push(114);
    out.push(114);
    out.push(111);
    out.push(114);
    out.push(10);
    out.push(100);
    out.push(97);
    out.push(116);
    out.push(97);
    out.push(58);
    out.push(32);
    out.push(108);
    out.push(97);
    out.push(103);
    out.push(103);
    out.push(101);
    out.push(100);
    out.push(10);
    out.push(10);
    proof {
        assert(out@ =~= sse_lagged_text());
    }
    out
}

} // verus!
